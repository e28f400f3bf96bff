//! The quorum-replication harness: replica placement by key digest,
//! comma-separated cart payloads with set semantics, and request drivers
//! for the quorum get/put protocol.

use vstd::prelude::*;
use crate::msg::{Message, Value, ValueV, Payload, dup_str_vec};
use crate::node::Node;
use crate::strutil::{str_eq, views_of, spec_dec, u64_to_dec, same_texts, same_text_sets};
use crate::system::{System, session_frame};
use vstd::string::StringSliceAdditionalSpecFns;

verus! {

/// The 16-byte digest an input hashes to. Relied on through
/// `md5_digest`; the digest depends on the input bytes alone.
pub uninterp spec fn md5_of(bytes: Seq<u8>) -> Seq<u8>;

/// Relies on md5::compute: hashing the UTF-8 bytes of the input returns
/// the 16-byte digest of those bytes alone.
#[verifier::external_body]
fn md5_digest(s: &str) -> (r: [u8; 16])
    ensures
        r@ == md5_of(s.spec_bytes()),
{
    md5::compute(s.as_bytes()).0
}

/// The value of a byte sequence read as a little-endian integer.
pub open spec fn le_bytes(b: Seq<u8>) -> int
    decreases b.len(),
{
    if b.len() == 0 {
        0
    } else {
        b[0] + 256 * le_bytes(b.drop_first())
    }
}

/// The power `256^n`.
pub open spec fn pow256(n: int) -> int
    decreases n,
{
    if n <= 0 {
        1
    } else {
        256 * pow256(n - 1)
    }
}

/// Powers of 256 are positive.
pub proof fn lemma_pow256_pos(n: int)
    ensures
        pow256(n) >= 1,
    decreases n,
{
    if n > 0 {
        lemma_pow256_pos(n - 1);
        assert(256 * pow256(n - 1) >= 256) by (nonlinear_arith)
            requires
                pow256(n - 1) >= 1,
        ;
    }
}

/// Powers of 256 are monotone.
pub proof fn lemma_pow256_mono(a: int, b: int)
    requires
        0 <= a <= b,
    ensures
        pow256(a) <= pow256(b),
    decreases b,
{
    if a < b {
        lemma_pow256_mono(a, b - 1);
        lemma_pow256_pos(b - 1);
        assert(pow256(b) == 256 * pow256(b - 1));
        assert(256 * pow256(b - 1) >= pow256(b - 1)) by (nonlinear_arith)
            requires
                pow256(b - 1) >= 1,
        ;
    }
}

/// The sixteenth power of 256 spans exactly the 128-bit range.
pub proof fn lemma_pow256_16()
    ensures
        pow256(16) == 0x1_0000_0000_0000_0000_0000_0000_0000_0000,
{
    assert(pow256(0) == 1);
    assert(pow256(1) == 0x100);
    assert(pow256(2) == 0x1_0000);
    assert(pow256(3) == 0x100_0000);
    assert(pow256(4) == 0x1_0000_0000);
    assert(pow256(5) == 0x100_0000_0000);
    assert(pow256(6) == 0x1_0000_0000_0000);
    assert(pow256(7) == 0x100_0000_0000_0000);
    assert(pow256(8) == 0x1_0000_0000_0000_0000);
    assert(pow256(9) == 0x100_0000_0000_0000_0000);
    assert(pow256(10) == 0x1_0000_0000_0000_0000_0000);
    assert(pow256(11) == 0x100_0000_0000_0000_0000_0000);
    assert(pow256(12) == 0x1_0000_0000_0000_0000_0000_0000);
    assert(pow256(13) == 0x100_0000_0000_0000_0000_0000_0000);
    assert(pow256(14) == 0x1_0000_0000_0000_0000_0000_0000_0000);
    assert(pow256(15) == 0x100_0000_0000_0000_0000_0000_0000_0000);
    assert(pow256(16) == 0x1_0000_0000_0000_0000_0000_0000_0000_0000);
}

/// Reads a 16-byte digest as a little-endian 128-bit integer.
fn le_u128(d: &[u8; 16]) -> (r: u128)
    ensures
        r == le_bytes(d@),
{
    proof {
        assert(d@.len() == 16);
    }
    let mut acc: u128 = 0;
    let mut i: usize = 16;
    while i > 0
        invariant
            i <= 16,
            d@.len() == 16,
            acc == le_bytes(d@.skip(i as int)),
            acc < pow256(16 - i),
        decreases i,
    {
        proof {
            lemma_pow256_pos(16 - i as int);
            assert(pow256(16 - (i - 1)) == 256 * pow256(16 - i));
            assert(acc * 256 + 255 < pow256(16 - (i - 1))) by (nonlinear_arith)
                requires
                    acc < pow256(16 - i),
                    pow256(16 - (i - 1)) == 256 * pow256(16 - i),
            ;
            lemma_pow256_mono(16 - (i - 1) as int, 16);
            lemma_pow256_16();
        }
        let b = d[i - 1];
        acc = acc * 256 + (b as u128);
        i -= 1;
        proof {
            assert(d@.skip(i as int).drop_first() =~= d@.skip(i + 1 as int));
            assert(d@.skip(i as int)[0] == d@[i as int]);
        }
    }
    proof {
        assert(d@.skip(0) =~= d@);
    }
    acc
}

/// The index of the `k`-th replica of a key hashing to `h` among `n`
/// nodes: the digest reduced modulo the node count, advanced `k` places
/// with wrap-around.
pub open spec fn replica_index(h: int, n: int, k: int) -> int {
    ((h % n) + k) % n
}

/// The ids of the three replicas of a key: the digest of the key, read
/// as a little-endian 128-bit value, reduced modulo the node count,
/// picks the first replica; the next two ids follow with wrap-around.
pub fn key_replicas(key: &str, node_count: u64) -> (r: Vec<String>)
    requires
        1 <= node_count <= 0xffff_ffff,
    ensures
        r@.len() == 3,
        forall|k: int|
            0 <= k < 3 ==> (#[trigger] r@[k])@ == spec_dec(
                replica_index(le_bytes(md5_of(key.spec_bytes())), node_count as int, k),
            ),
{
    let d = md5_digest(key);
    let h = le_u128(&d);
    let n128 = node_count as u128;
    let first = (h % n128) as u64;
    let ghost hh = le_bytes(md5_of(key.spec_bytes()));
    proof {
        assert(first == hh % (node_count as int));
    }
    let mut out: Vec<String> = Vec::new();
    let r0 = first % node_count;
    let r1 = (first + 1) % node_count;
    let r2 = (first + 2) % node_count;
    proof {
        assert(r0 == replica_index(hh, node_count as int, 0));
        assert(r1 == replica_index(hh, node_count as int, 1));
        assert(r2 == replica_index(hh, node_count as int, 2));
    }
    out.push(u64_to_dec(r0));
    out.push(u64_to_dec(r1));
    out.push(u64_to_dec(r2));
    out
}

/// Whether the node index is one of the key's three replicas.
pub open spec fn is_replica_idx(h: int, n: int, idx: int) -> bool {
    idx == replica_index(h, n, 0) || idx == replica_index(h, n, 1) || idx == replica_index(
        h,
        n,
        2,
    )
}

/// The non-replica ids in rotated order: walking the ids upward, those
/// after the first replica come first, then those before it.
pub open spec fn non_replicas_from(
    h: int,
    n: int,
    idx: int,
    pre: Seq<Seq<char>>,
    non: Seq<Seq<char>>,
    before_first: bool,
) -> Seq<Seq<char>>
    decreases n - idx,
    when 0 <= idx <= n
{
    if idx >= n {
        non + pre
    } else if is_replica_idx(h, n, idx) {
        non_replicas_from(h, n, idx + 1, pre, non, false)
    } else if before_first {
        non_replicas_from(h, n, idx + 1, pre.push(spec_dec(idx)), non, true)
    } else {
        non_replicas_from(h, n, idx + 1, pre, non.push(spec_dec(idx)), false)
    }
}

/// The ids of the nodes that are not replicas of the key, rotated so
/// that those after the last replica come first.
pub fn key_non_replicas(key: &str, node_count: u64) -> (r: Vec<String>)
    requires
        1 <= node_count <= 0xffff_ffff,
    ensures
        views_of(r@) == non_replicas_from(
            le_bytes(md5_of(key.spec_bytes())),
            node_count as int,
            0,
            Seq::empty(),
            Seq::empty(),
            true,
        ),
{
    let d = md5_digest(key);
    let h = le_u128(&d);
    let n128 = node_count as u128;
    let first = (h % n128) as u64;
    let ghost hh = le_bytes(md5_of(key.spec_bytes()));
    let r0 = first % node_count;
    let r1 = (first + 1) % node_count;
    let r2 = (first + 2) % node_count;
    proof {
        assert(r0 == replica_index(hh, node_count as int, 0));
        assert(r1 == replica_index(hh, node_count as int, 1));
        assert(r2 == replica_index(hh, node_count as int, 2));
    }
    let mut pre: Vec<String> = Vec::new();
    let mut non: Vec<String> = Vec::new();
    proof {
        assert(views_of(pre@) =~= Seq::<Seq<char>>::empty());
        assert(views_of(non@) =~= Seq::<Seq<char>>::empty());
    }
    let mut before_first = true;
    let mut idx: u64 = 0;
    while idx < node_count
        invariant
            1 <= node_count <= 0xffff_ffff,
            idx <= node_count,
            r0 == replica_index(hh, node_count as int, 0),
            r1 == replica_index(hh, node_count as int, 1),
            r2 == replica_index(hh, node_count as int, 2),
            non_replicas_from(
                hh,
                node_count as int,
                idx as int,
                views_of(pre@),
                views_of(non@),
                before_first,
            ) == non_replicas_from(
                hh,
                node_count as int,
                0,
                Seq::empty(),
                Seq::empty(),
                true,
            ),
        decreases node_count - idx,
    {
        if idx == r0 || idx == r1 || idx == r2 {
            before_first = false;
        } else if before_first {
            let ghost pv = views_of(pre@);
            pre.push(u64_to_dec(idx));
            proof {
                assert(views_of(pre@) =~= pv.push(spec_dec(idx as int)));
            }
        } else {
            let ghost nv = views_of(non@);
            non.push(u64_to_dec(idx));
            proof {
                assert(views_of(non@) =~= nv.push(spec_dec(idx as int)));
            }
        }
        idx += 1;
    }
    let ghost nv = views_of(non@);
    let ghost pv = views_of(pre@);
    let mut k: usize = 0;
    while k < pre.len()
        invariant
            k <= pre@.len(),
            pv == views_of(pre@),
            pv.len() == pre@.len(),
            views_of(non@) == nv + pv.take(k as int),
        decreases pre@.len() - k,
    {
        let ghost cur = views_of(non@);
        proof {
            assert(pv[k as int] == pre@[k as int]@);
        }
        non.push(pre[k].clone());
        proof {
            assert(views_of(non@) =~= cur.push(pv[k as int]));
            assert(cur.push(pv[k as int]) =~= nv + pv.take(k + 1 as int));
        }
        k += 1;
    }
    proof {
        assert(pv.take(pv.len() as int) =~= pv);
    }
    non
}

/// Splits a text at commas, scanning left to right: `cur` is the piece
/// under construction.
pub open spec fn split_acc(s: Seq<char>, i: int, cur: Seq<char>) -> Seq<Seq<char>>
    decreases s.len() - i,
    when 0 <= i <= s.len()
{
    if i >= s.len() {
        seq![cur]
    } else if s[i] == ',' {
        seq![cur] + split_acc(s, i + 1, Seq::empty())
    } else {
        split_acc(s, i + 1, cur.push(s[i]))
    }
}

/// The comma-separated items of a cart payload.
pub open spec fn cart_items(s: Seq<char>) -> Seq<Seq<char>> {
    split_acc(s, 0, Seq::empty())
}

/// Splits a string at commas.
pub fn split_commas(s: &str) -> (r: Vec<String>)
    ensures
        views_of(r@) == cart_items(s@),
{
    let n = s.unicode_len();
    let mut out: Vec<String> = Vec::new();
    proof {
        assert(views_of(out@) =~= Seq::<Seq<char>>::empty());
        assert(s@.subrange(0, 0) =~= Seq::<char>::empty());
        assert(Seq::<Seq<char>>::empty() + split_acc(s@, 0, Seq::<char>::empty()) =~= split_acc(
            s@,
            0,
            Seq::<char>::empty(),
        ));
    }
    let mut start: usize = 0;
    let mut i: usize = 0;
    while i < n
        invariant
            start <= i <= n,
            n == s@.len(),
            s@.subrange(start as int, i as int).len() == i - start,
            cart_items(s@) == views_of(out@) + split_acc(
                s@,
                i as int,
                s@.subrange(start as int, i as int),
            ),
        decreases n - i,
    {
        if s.get_char(i) == ',' {
            let piece = s.substring_char(start, i);
            let ghost ov = views_of(out@);
            out.push(piece.to_owned());
            proof {
                assert(views_of(out@) =~= ov.push(s@.subrange(start as int, i as int)));
                assert(split_acc(s@, i as int, s@.subrange(start as int, i as int)) == seq![
                    s@.subrange(start as int, i as int),
                ] + split_acc(s@, i + 1 as int, Seq::empty()));
                assert(s@.subrange(i + 1 as int, i + 1 as int) =~= Seq::<char>::empty());
                assert(views_of(out@) + split_acc(s@, i + 1 as int, Seq::empty()) =~= ov + (seq![
                    s@.subrange(start as int, i as int),
                ] + split_acc(s@, i + 1 as int, Seq::empty())));
            }
            start = i + 1;
        } else {
            proof {
                assert(s@.subrange(start as int, i + 1 as int) =~= s@.subrange(
                    start as int,
                    i as int,
                ).push(s@[i as int]));
            }
        }
        i += 1;
    }
    let piece = s.substring_char(start, n);
    let ghost ov = views_of(out@);
    out.push(piece.to_owned());
    proof {
        assert(views_of(out@) =~= ov.push(s@.subrange(start as int, n as int)));
        assert(split_acc(s@, n as int, s@.subrange(start as int, n as int)) == seq![
            s@.subrange(start as int, n as int),
        ]);
        assert(cart_items(s@) =~= views_of(out@));
    }
    out
}

/// Whether the string starts with the given prefix.
pub fn str_starts_with(s: &str, p: &str) -> (r: bool)
    ensures
        r == (s@.len() >= p@.len() && s@.take(p@.len() as int) == p@),
{
    let ls = s.unicode_len();
    let lp = p.unicode_len();
    if ls < lp {
        return false;
    }
    let mut i: usize = 0;
    while i < lp
        invariant
            i <= lp,
            lp == p@.len(),
            ls == s@.len(),
            ls >= lp,
            forall|j: int| 0 <= j < i ==> s@[j] == p@[j],
        decreases lp - i,
    {
        if s.get_char(i) != p.get_char(i) {
            proof {
                assert(s@.take(p@.len() as int)[i as int] == s@[i as int]);
            }
            return false;
        }
        i += 1;
    }
    proof {
        assert(s@.take(p@.len() as int) =~= p@);
    }
    true
}

/// Whether a key names a shopping cart: it begins with `CART` or
/// `XCART`, whose payloads are comma-separated sets of items.
pub open spec fn is_cart_key(k: Seq<char>) -> bool {
    (k.len() >= 4 && k.take(4) == "CART"@) || (k.len() >= 5 && k.take(5) == "XCART"@)
}

/// Decides whether a key names a shopping cart.
pub fn cart_key(key: &str) -> (r: bool)
    ensures
        r == is_cart_key(key@),
{
    let a = str_starts_with(key, "CART");
    let b = str_starts_with(key, "XCART");
    proof {
        reveal_strlit("CART");
        reveal_strlit("XCART");
    }
    a || b
}

/// Checks a cart read: a single value whose comma-separated items are
/// exactly the expected set, item for item.
pub fn check_cart_values(values: &Vec<String>, expected: &Vec<String>) -> (r: Result<(), String>)
    ensures
        r is Ok <==> values@.len() == 1 && cart_items(values@[0]@).len() == expected@.len()
            && same_texts(cart_items(values@[0]@), views_of(expected@)),
{
    if values.len() != 1 {
        return Result::Err(String::from_str("expected a single value"));
    }
    let items = split_commas(values[0].as_str());
    proof {
        assert(views_of(items@).len() == items@.len());
        assert(views_of(expected@).len() == expected@.len());
    }
    if items.len() != expected.len() {
        return Result::Err(String::from_str("wrong item count"));
    }
    if same_text_sets(&items, expected) {
        Result::Ok(())
    } else {
        Result::Err(String::from_str("cart items differ"))
    }
}

/// Whether read values agree with the expected ones: as sets of values,
/// or, for cart keys, as sets of items of the single value.
pub open spec fn values_agree(vals: Seq<Seq<char>>, expected: Seq<Seq<char>>, cart: bool) -> bool {
    if cart {
        vals.len() <= 1 && expected.len() <= 1 && same_texts(
            if vals.len() == 0 {
                Seq::empty()
            } else {
                cart_items(vals[0])
            },
            if expected.len() == 0 {
                Seq::empty()
            } else {
                cart_items(expected[0])
            },
        )
    } else {
        same_texts(vals, expected)
    }
}

/// Decides whether read values agree with the expected ones.
pub fn judge_values(vals: &Vec<String>, expected: &Vec<String>, cart: bool) -> (r: bool)
    ensures
        r == values_agree(views_of(vals@), views_of(expected@), cart),
{
    proof {
        assert(views_of(vals@).len() == vals@.len());
        assert(views_of(expected@).len() == expected@.len());
    }
    if cart {
        if vals.len() > 1 || expected.len() > 1 {
            return false;
        }
        let vi: Vec<String> = if vals.len() == 0 {
            Vec::new()
        } else {
            split_commas(vals[0].as_str())
        };
        let ei: Vec<String> = if expected.len() == 0 {
            Vec::new()
        } else {
            split_commas(expected[0].as_str())
        };
        proof {
            if vals@.len() > 0 {
                assert(views_of(vals@)[0] == vals@[0]@);
            } else {
                assert(views_of(vi@) =~= Seq::<Seq<char>>::empty());
            }
            if expected@.len() > 0 {
                assert(views_of(expected@)[0] == expected@[0]@);
            } else {
                assert(views_of(ei@) =~= Seq::<Seq<char>>::empty());
            }
        }
        same_text_sets(&vi, &ei)
    } else {
        same_text_sets(vals, expected)
    }
}

/// Sends a quorum `GET{key, quorum}` and returns the reply's values and
/// context. When an expectation is given, the reply's values must agree
/// with it (set-wise; item-wise for cart keys).
pub fn check_get<N: Node>(
    sys: &mut System<N>,
    node: &str,
    key: &str,
    quorum: u64,
    expected: Option<&Vec<String>>,
    max_steps: u64,
) -> (r: Result<(Vec<String>, Option<String>), String>)
    requires
        old(sys).wf(),
    ensures
        final(sys).wf(),
        session_frame(*old(sys), *final(sys)),
        r matches Ok(p) ==> (match expected {
            Option::Some(e) => values_agree(views_of(p.0@), views_of(e@), is_cart_key(key@)),
            Option::None => true,
        }),
        r matches Ok(p) ==> old(sys).has_id(node@) && ({
            let idx = old(sys).idx_of(node@);
            exists|k: int|
                0 <= k < final(sys).slots()[idx].log.len()
                    && (#[trigger] final(sys).slots()[idx].log[k]).kind
                    == crate::node::LocalKind::Output && final(sys).slots()[idx].log[k].msg.tip
                    == "GET_RESP"@ && crate::msg::lookup_field(
                    final(sys).slots()[idx].log[k].msg.fields,
                    "values"@,
                ) == Option::Some(ValueV::A(views_of(p.0@))) && (match p.1 {
                    Option::Some(c) => crate::msg::lookup_field(
                        final(sys).slots()[idx].log[k].msg.fields,
                        "context"@,
                    ) == Option::Some(ValueV::S(c@)),
                    Option::None => !(crate::msg::lookup_field(
                        final(sys).slots()[idx].log[k].msg.fields,
                        "context"@,
                    ) matches Option::Some(ValueV::S(_))),
                })
        }),
{
    let msg = Message::new(
        "GET",
        Payload::empty().with_str("key", key).with_u64("quorum", quorum),
    );
    let reply = match sys.request_reply(node, msg, max_steps) {
        Result::Err(e) => {
            return Result::Err(e);
        },
        Result::Ok(m) => m,
    };
    if !str_eq(reply.tip.as_str(), "GET_RESP") {
        return Result::Err(String::from_str("wrong reply type"));
    }
    let key_ok = match reply.payload.get("key") {
        Option::Some(v) => match v {
            Value::S(s) => str_eq(s.as_str(), key),
            _ => false,
        },
        Option::None => false,
    };
    if !key_ok {
        return Result::Err(String::from_str("wrong key echoed"));
    }
    let vals = match reply.payload.get("values") {
        Option::Some(v) => match v {
            Value::A(a) => dup_str_vec(a),
            _ => {
                return Result::Err(String::from_str("malformed values"));
            },
        },
        Option::None => {
            return Result::Err(String::from_str("missing values"));
        },
    };
    let ctx: Option<String> = match reply.payload.get("context") {
        Option::Some(v) => match v {
            Value::S(s) => Option::Some(s.clone()),
            _ => Option::None,
        },
        Option::None => Option::None,
    };
    match expected {
        Option::Some(e) => {
            let cart = cart_key(key);
            if !judge_values(&vals, e, cart) {
                return Result::Err(String::from_str("unexpected values"));
            }
        },
        Option::None => {},
    }
    proof {
        let idx = old(sys).idx_of(node@);
        let k = choose|k: int|
            0 <= k < sys.slots()[idx].log.len() && (#[trigger] sys.slots()[idx].log[k]).kind
                == crate::node::LocalKind::Output && sys.slots()[idx].log[k].msg == reply@;
        assert(sys.slots()[idx].log[k].msg.tip == "GET_RESP"@);
        assert(crate::msg::lookup_field(sys.slots()[idx].log[k].msg.fields, "values"@)
            == Option::Some(ValueV::A(views_of(vals@))));
        match &ctx {
            Option::Some(c) => {
                assert(crate::msg::lookup_field(sys.slots()[idx].log[k].msg.fields, "context"@)
                    == Option::Some(ValueV::S(c@)));
            },
            Option::None => {
                assert(!(crate::msg::lookup_field(sys.slots()[idx].log[k].msg.fields, "context"@)
                    matches Option::Some(ValueV::S(_))));
            },
        }
    }
    Result::Ok((vals, ctx))
}

/// Sends a quorum `PUT{key, value, context?, quorum}` and returns the
/// reply's values and context.
pub fn check_put<N: Node>(
    sys: &mut System<N>,
    node: &str,
    key: &str,
    value: &str,
    context: Option<&String>,
    quorum: u64,
    max_steps: u64,
) -> (r: Result<(Vec<String>, String), String>)
    requires
        old(sys).wf(),
    ensures
        final(sys).wf(),
        session_frame(*old(sys), *final(sys)),
        r matches Ok(p) ==> old(sys).has_id(node@) && ({
            let idx = old(sys).idx_of(node@);
            exists|k: int|
                0 <= k < final(sys).slots()[idx].log.len()
                    && (#[trigger] final(sys).slots()[idx].log[k]).kind
                    == crate::node::LocalKind::Output && final(sys).slots()[idx].log[k].msg.tip
                    == "PUT_RESP"@ && crate::msg::lookup_field(
                    final(sys).slots()[idx].log[k].msg.fields,
                    "values"@,
                ) == Option::Some(ValueV::A(views_of(p.0@))) && crate::msg::lookup_field(
                    final(sys).slots()[idx].log[k].msg.fields,
                    "context"@,
                ) == Option::Some(ValueV::S(p.1@))
        }),
{
    let mut payload = Payload::empty().with_str("key", key).with_str("value", value);
    payload = match context {
        Option::Some(c) => payload.with_str("context", c.as_str()),
        Option::None => payload.with_null("context"),
    };
    payload = payload.with_u64("quorum", quorum);
    let msg = Message::new("PUT", payload);
    let reply = match sys.request_reply(node, msg, max_steps) {
        Result::Err(e) => {
            return Result::Err(e);
        },
        Result::Ok(m) => m,
    };
    if !str_eq(reply.tip.as_str(), "PUT_RESP") {
        return Result::Err(String::from_str("wrong reply type"));
    }
    let key_ok = match reply.payload.get("key") {
        Option::Some(v) => match v {
            Value::S(s) => str_eq(s.as_str(), key),
            _ => false,
        },
        Option::None => false,
    };
    if !key_ok {
        return Result::Err(String::from_str("wrong key echoed"));
    }
    let vals = match reply.payload.get("values") {
        Option::Some(v) => match v {
            Value::A(a) => dup_str_vec(a),
            _ => {
                return Result::Err(String::from_str("malformed values"));
            },
        },
        Option::None => {
            return Result::Err(String::from_str("missing values"));
        },
    };
    let ctx = match reply.payload.get("context") {
        Option::Some(v) => match v {
            Value::S(s) => s.clone(),
            _ => {
                return Result::Err(String::from_str("malformed context"));
            },
        },
        Option::None => {
            return Result::Err(String::from_str("missing context"));
        },
    };
    proof {
        let idx = old(sys).idx_of(node@);
        let k = choose|k: int|
            0 <= k < sys.slots()[idx].log.len() && (#[trigger] sys.slots()[idx].log[k]).kind
                == crate::node::LocalKind::Output && sys.slots()[idx].log[k].msg == reply@;
        assert(sys.slots()[idx].log[k].msg.tip == "PUT_RESP"@);
        assert(crate::msg::lookup_field(sys.slots()[idx].log[k].msg.fields, "values"@)
            == Option::Some(ValueV::A(views_of(vals@))));
        assert(crate::msg::lookup_field(sys.slots()[idx].log[k].msg.fields, "context"@)
            == Option::Some(ValueV::S(ctx@)));
    }
    Result::Ok((vals, ctx))
}

} // verus!
