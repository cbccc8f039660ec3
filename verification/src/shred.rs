//! The document shredder: a depth-first walk of a parsed JSON value that
//! assigns a fresh node identifier to every child, forms each child's key
//! from its parent's key, and emits one encoded `(key, value)` pair per
//! visited node.
//!
//! The identifier counter is threaded through the walk; it becomes
//! authoritative only when the caller commits the batch.

use vstd::prelude::*;

use crate::bytes::clone_bytes;
use crate::error::EncodeError;
use crate::json_value::JsonValue;
use crate::key::{
    key_encode_v, lemma_key_encode_branch_differs, lemma_key_encode_len_differs, Key, KeyIndex,
    KeyIndexV, KeyV,
};
use crate::node_value::{node_value_encode_v, NodeValue, NodeValueV};
use crate::varint::{vi_encode, VariableSizedId};

verus! {

/// The stored payload for one JSON node: its scalar value, or the marker of
/// its container kind.
pub open spec fn json_node_value(v: JsonValue) -> NodeValueV {
    match v {
        JsonValue::Null => NodeValueV::Null,
        JsonValue::Bool(b) => NodeValueV::Bool(b),
        JsonValue::I64(i) => NodeValueV::NumberI(i),
        JsonValue::U64(u) => NodeValueV::NumberU(u),
        JsonValue::F64Bits(x) => NodeValueV::Number(x),
        JsonValue::String(s) => NodeValueV::Str(s@),
        JsonValue::Array(_) => NodeValueV::Array,
        JsonValue::Object(_) => NodeValueV::Object,
    }
}

/// The abstract view of a batch of encoded `(key, value)` pairs.
pub open spec fn pairs_view(s: Seq<(Vec<u8>, Vec<u8>)>) -> Seq<(Seq<u8>, Seq<u8>)> {
    s.map_values(|p: (Vec<u8>, Vec<u8>)| (p.0@, p.1@))
}

/// The key of the child allocated identifier `id` under context `ctx` with
/// terminal locator `idx`.
pub open spec fn child_key(ctx: KeyV, id: nat, idx: KeyIndexV) -> KeyV {
    KeyV { ids: ctx.ids.push(id), idx }
}

/// Shredding one node: its own record first, then the records of its
/// children in order, depth first.  Returns the emitted records and the
/// final identifier counter.
pub open spec fn shred_value(v: JsonValue, ctx: KeyV, counter: nat) -> (Seq<(Seq<u8>, Seq<u8>)>, nat)
    decreases v, 0int,
{
    let own = seq![(key_encode_v(ctx), node_value_encode_v(json_node_value(v)))];
    match v {
        JsonValue::Array(items) => {
            let (rest, c2) = shred_arr(items@, 0, ctx, counter);
            (own + rest, c2)
        },
        JsonValue::Object(members) => {
            let (rest, c2) = shred_obj(members@, 0, ctx, counter);
            (own + rest, c2)
        },
        _ => (own, counter),
    }
}

/// Shredding the array elements from position `i` on: each is allocated the
/// next identifier and keyed under its ordinal position.
pub open spec fn shred_arr(items: Seq<JsonValue>, i: int, ctx: KeyV, counter: nat) -> (
    Seq<(Seq<u8>, Seq<u8>)>,
    nat,
)
    decreases items, items.len() - i + 1,
{
    if i < 0 || i >= items.len() {
        (Seq::empty(), counter)
    } else {
        let id = counter + 1;
        let ck = child_key(ctx, id, KeyIndexV::Id(vi_encode(i as nat)));
        let (child_entries, c2) = shred_value(items[i], ck, id);
        let (rest, c3) = shred_arr(items, i + 1, ctx, c2);
        (child_entries + rest, c3)
    }
}

/// Shredding the object members from position `i` on: each is allocated the
/// next identifier and keyed under its member name.
pub open spec fn shred_obj(members: Seq<(Vec<u8>, JsonValue)>, i: int, ctx: KeyV, counter: nat) -> (
    Seq<(Seq<u8>, Seq<u8>)>,
    nat,
)
    decreases members, members.len() - i + 1,
{
    if i < 0 || i >= members.len() {
        (Seq::empty(), counter)
    } else {
        let id = counter + 1;
        let ck = child_key(ctx, id, KeyIndexV::Field(members[i].0@));
        let (child_entries, c2) = shred_value(members[i].1, ck, id);
        let (rest, c3) = shred_obj(members, i + 1, ctx, c2);
        (child_entries + rest, c3)
    }
}

/// The identifier counter never moves backwards while shredding.
pub proof fn lemma_shred_value_mono(v: JsonValue, ctx: KeyV, counter: nat)
    ensures
        shred_value(v, ctx, counter).1 >= counter,
    decreases v, 0int,
{
    match v {
        JsonValue::Array(items) => {
            lemma_shred_arr_mono(items@, 0, ctx, counter);
        },
        JsonValue::Object(members) => {
            lemma_shred_obj_mono(members@, 0, ctx, counter);
        },
        _ => {},
    }
}

/// The identifier counter never moves backwards over array elements.
pub proof fn lemma_shred_arr_mono(items: Seq<JsonValue>, i: int, ctx: KeyV, counter: nat)
    ensures
        shred_arr(items, i, ctx, counter).1 >= counter,
    decreases items, items.len() - i + 1,
{
    if 0 <= i < items.len() {
        let id = counter + 1;
        let ck = child_key(ctx, id, KeyIndexV::Id(vi_encode(i as nat)));
        lemma_shred_value_mono(items[i], ck, id);
        lemma_shred_arr_mono(items, i + 1, ctx, shred_value(items[i], ck, id).1);
    }
}

/// The identifier counter never moves backwards over object members.
pub proof fn lemma_shred_obj_mono(members: Seq<(Vec<u8>, JsonValue)>, i: int, ctx: KeyV, counter: nat)
    ensures
        shred_obj(members, i, ctx, counter).1 >= counter,
    decreases members, members.len() - i + 1,
{
    if 0 <= i < members.len() {
        let id = counter + 1;
        let ck = child_key(ctx, id, KeyIndexV::Field(members[i].0@));
        lemma_shred_value_mono(members[i].1, ck, id);
        lemma_shred_obj_mono(members, i + 1, ctx, shred_value(members[i].1, ck, id).1);
    }
}

/// Builds the stored payload for one JSON node.
fn make_node_value(v: &JsonValue) -> (r: NodeValue)
    ensures
        r@ == json_node_value(*v),
{
    match v {
        JsonValue::Null => NodeValue::Null,
        JsonValue::Bool(b) => NodeValue::Bool(*b),
        JsonValue::I64(i) => NodeValue::NumberI(*i),
        JsonValue::U64(u) => NodeValue::NumberU(*u),
        JsonValue::F64Bits(x) => NodeValue::Number(*x),
        JsonValue::String(s) => NodeValue::String(clone_bytes(s)),
        JsonValue::Array(_) => NodeValue::Array,
        JsonValue::Object(_) => NodeValue::Object,
    }
}

/// Walks `v` depth first under the context key `ctx`, appending one encoded
/// record per node to `out` and allocating fresh identifiers from
/// `counter` upward.  Fails with `Overflow` exactly when the walk would
/// issue an identifier too large to carry the key bias.
#[verifier::loop_isolation(false)]
pub fn shred_into(v: &JsonValue, ctx: &Key, counter: u64, out: &mut Vec<(Vec<u8>, Vec<u8>)>) -> (r:
    Result<u64, EncodeError>)
    requires
        ctx.wf(),
    ensures
        match r {
            Ok(c2) => (shred_value(*v, ctx@, counter as nat).1 <= 0xFFFFFFFFFFFFFFFE || c2
                == counter) && c2 as nat == shred_value(*v, ctx@, counter as nat).1 && pairs_view(
                final(out)@,
            ) == pairs_view(old(out)@) + shred_value(*v, ctx@, counter as nat).0,
            Err(e) => e == EncodeError::Overflow && shred_value(*v, ctx@, counter as nat).1
                > 0xFFFFFFFFFFFFFFFE && shred_value(*v, ctx@, counter as nat).1 > counter as nat,
        },
    decreases *v,
{
    let own_key = ctx.encode();
    let own_value = make_node_value(v).encode();
    out.push((own_key, own_value));
    let ghost own_entry = seq![
        (key_encode_v(ctx@), node_value_encode_v(json_node_value(*v))),
    ];
    let ghost base = pairs_view(old(out)@);
    proof {
        assert(pairs_view(out@) =~= base + own_entry);
    }
    match v {
        JsonValue::Array(items) => {
            let mut c = counter;
            let mut i: usize = 0;
            proof {
                assert(pairs_view(out@).skip(base.len() as int + 1) =~= Seq::<(Seq<u8>, Seq<u8>)>::empty());
                assert(Seq::<(Seq<u8>, Seq<u8>)>::empty() + shred_arr(
                    items@,
                    0,
                    ctx@,
                    counter as nat,
                ).0 =~= shred_arr(items@, 0, ctx@, counter as nat).0);
            }
            while i < items.len()
                invariant
                    0 <= i <= items@.len(),
                    ctx.wf(),
                    c >= counter,
                    c <= 0xFFFFFFFFFFFFFFFE || c == counter,
                    shred_arr(items@, 0, ctx@, counter as nat).1 == shred_arr(
                        items@,
                        i as int,
                        ctx@,
                        c as nat,
                    ).1,
                    shred_arr(items@, 0, ctx@, counter as nat).0 == pairs_view(out@).skip(
                        base.len() as int + 1,
                    ) + shred_arr(items@, i as int, ctx@, c as nat).0,
                    pairs_view(out@).take(base.len() as int + 1) == base + own_entry,
                    pairs_view(out@).len() >= base.len() as int + 1,
                decreases items@.len() - i,
            {
                let ghost c0 = c as nat;
                let ghost emitted = pairs_view(out@).skip(base.len() as int + 1);
                if c >= 0xFFFFFFFFFFFFFFFE {
                    proof {
                        let id = c0 + 1;
                        let ck = child_key(ctx@, id, KeyIndexV::Id(vi_encode(i as nat)));
                        lemma_shred_value_mono(items@[i as int], ck, id);
                        lemma_shred_arr_mono(
                            items@,
                            i as int + 1,
                            ctx@,
                            shred_value(items@[i as int], ck, id).1,
                        );
                        assert(shred_arr(items@, i as int, ctx@, c0).1 == shred_arr(
                            items@,
                            i as int + 1,
                            ctx@,
                            shred_value(items@[i as int], ck, id).1,
                        ).1);
                        assert(shred_value(*v, ctx@, counter as nat).1 == shred_arr(
                            items@,
                            0,
                            ctx@,
                            counter as nat,
                        ).1);
                    }
                    return Err(EncodeError::Overflow);
                }
                c = c + 1;
                let child = ctx.sub_key(
                    VariableSizedId::new(c),
                    KeyIndex::Id(VariableSizedId::new(i as u64)),
                );
                proof {
                    assert(child@ =~= child_key(
                        ctx@,
                        c as nat,
                        KeyIndexV::Id(vi_encode(i as nat)),
                    ));
                    assert forall|j: int|
                        0 <= j < child.ids@.len() implies (#[trigger] child.ids@[j]).wf()
                        && child.ids@[j].val() < 0xFFFFFFFFFFFFFFFF by {
                        if j < ctx.ids@.len() {
                            assert(child.ids@[j].value@ == ctx.ids@[j].value@);
                        }
                    }
                }
                proof {
                    assert(decreases_to!(*v => *items));
                    assert(decreases_to!(*items => items@));
                    assert(decreases_to!(items@ => items@[i as int]));
                }
                match shred_into(&items[i], &child, c, out) {
                    Ok(c2) => {
                        proof {
                            lemma_shred_value_mono(items@[i as int], child@, c as nat);
                            assert(pairs_view(out@).take(base.len() as int + 1) =~= base + own_entry);
                            assert(pairs_view(out@).skip(base.len() as int + 1) =~= emitted
                                + shred_value(items@[i as int], child@, c as nat).0);
                        }
                        c = c2;
                    },
                    Err(e) => {
                        proof {
                            lemma_shred_arr_mono(
                                items@,
                                i as int + 1,
                                ctx@,
                                shred_value(items@[i as int], child@, c as nat).1,
                            );
                            assert(shred_arr(items@, i as int, ctx@, c0).1 == shred_arr(
                                items@,
                                i as int + 1,
                                ctx@,
                                shred_value(items@[i as int], child@, c as nat).1,
                            ).1);
                            assert(shred_value(*v, ctx@, counter as nat).1 == shred_arr(
                                items@,
                                0,
                                ctx@,
                                counter as nat,
                            ).1);
                        }
                        return Err(e);
                    },
                }
                i = i + 1;
            }
            proof {
                assert(shred_arr(items@, i as int, ctx@, c as nat).0 == Seq::<(
                    Seq<u8>,
                    Seq<u8>,
                )>::empty());
                assert(pairs_view(out@) =~= pairs_view(out@).take(base.len() as int + 1) + pairs_view(
                    out@,
                ).skip(base.len() as int + 1));
                assert(pairs_view(out@).skip(base.len() as int + 1) + Seq::<(
                    Seq<u8>,
                    Seq<u8>,
                )>::empty() =~= pairs_view(out@).skip(base.len() as int + 1));
                assert(pairs_view(out@) =~= base + (own_entry + shred_arr(
                    items@,
                    0,
                    ctx@,
                    counter as nat,
                ).0));
            }
            Ok(c)
        },
        JsonValue::Object(members) => {
            let mut c = counter;
            let mut i: usize = 0;
            proof {
                assert(pairs_view(out@).skip(base.len() as int + 1) =~= Seq::<(Seq<u8>, Seq<u8>)>::empty());
                assert(Seq::<(Seq<u8>, Seq<u8>)>::empty() + shred_obj(
                    members@,
                    0,
                    ctx@,
                    counter as nat,
                ).0 =~= shred_obj(members@, 0, ctx@, counter as nat).0);
            }
            while i < members.len()
                invariant
                    0 <= i <= members@.len(),
                    ctx.wf(),
                    c >= counter,
                    c <= 0xFFFFFFFFFFFFFFFE || c == counter,
                    shred_obj(members@, 0, ctx@, counter as nat).1 == shred_obj(
                        members@,
                        i as int,
                        ctx@,
                        c as nat,
                    ).1,
                    shred_obj(members@, 0, ctx@, counter as nat).0 == pairs_view(out@).skip(
                        base.len() as int + 1,
                    ) + shred_obj(members@, i as int, ctx@, c as nat).0,
                    pairs_view(out@).take(base.len() as int + 1) == base + own_entry,
                    pairs_view(out@).len() >= base.len() as int + 1,
                decreases members@.len() - i,
            {
                let ghost c0 = c as nat;
                let ghost emitted = pairs_view(out@).skip(base.len() as int + 1);
                if c >= 0xFFFFFFFFFFFFFFFE {
                    proof {
                        let id = c0 + 1;
                        let ck = child_key(
                            ctx@,
                            id,
                            KeyIndexV::Field(members@[i as int].0@),
                        );
                        lemma_shred_value_mono(members@[i as int].1, ck, id);
                        lemma_shred_obj_mono(
                            members@,
                            i as int + 1,
                            ctx@,
                            shred_value(members@[i as int].1, ck, id).1,
                        );
                        assert(shred_obj(members@, i as int, ctx@, c0).1 == shred_obj(
                            members@,
                            i as int + 1,
                            ctx@,
                            shred_value(members@[i as int].1, ck, id).1,
                        ).1);
                        assert(shred_value(*v, ctx@, counter as nat).1 == shred_obj(
                            members@,
                            0,
                            ctx@,
                            counter as nat,
                        ).1);
                    }
                    return Err(EncodeError::Overflow);
                }
                c = c + 1;
                let name = clone_bytes(&members[i].0);
                let child = ctx.sub_key(VariableSizedId::new(c), KeyIndex::Field(name));
                proof {
                    assert(child@ =~= child_key(
                        ctx@,
                        c as nat,
                        KeyIndexV::Field(members@[i as int].0@),
                    ));
                    assert forall|j: int|
                        0 <= j < child.ids@.len() implies (#[trigger] child.ids@[j]).wf()
                        && child.ids@[j].val() < 0xFFFFFFFFFFFFFFFF by {
                        if j < ctx.ids@.len() {
                            assert(child.ids@[j].value@ == ctx.ids@[j].value@);
                        }
                    }
                }
                proof {
                    assert(decreases_to!(*v => *members));
                    assert(decreases_to!(*members => members@));
                    assert(decreases_to!(members@ => members@[i as int]));
                    assert(decreases_to!(members@[i as int] => members@[i as int].1));
                }
                match shred_into(&members[i].1, &child, c, out) {
                    Ok(c2) => {
                        proof {
                            lemma_shred_value_mono(members@[i as int].1, child@, c as nat);
                            assert(pairs_view(out@).take(base.len() as int + 1) =~= base + own_entry);
                            assert(pairs_view(out@).skip(base.len() as int + 1) =~= emitted
                                + shred_value(members@[i as int].1, child@, c as nat).0);
                        }
                        c = c2;
                    },
                    Err(e) => {
                        proof {
                            lemma_shred_obj_mono(
                                members@,
                                i as int + 1,
                                ctx@,
                                shred_value(members@[i as int].1, child@, c as nat).1,
                            );
                            assert(shred_obj(members@, i as int, ctx@, c0).1 == shred_obj(
                                members@,
                                i as int + 1,
                                ctx@,
                                shred_value(members@[i as int].1, child@, c as nat).1,
                            ).1);
                            assert(shred_value(*v, ctx@, counter as nat).1 == shred_obj(
                                members@,
                                0,
                                ctx@,
                                counter as nat,
                            ).1);
                        }
                        return Err(e);
                    },
                }
                i = i + 1;
            }
            proof {
                assert(shred_obj(members@, i as int, ctx@, c as nat).0 == Seq::<(
                    Seq<u8>,
                    Seq<u8>,
                )>::empty());
                assert(pairs_view(out@) =~= pairs_view(out@).take(base.len() as int + 1) + pairs_view(
                    out@,
                ).skip(base.len() as int + 1));
                assert(pairs_view(out@).skip(base.len() as int + 1) + Seq::<(
                    Seq<u8>,
                    Seq<u8>,
                )>::empty() =~= pairs_view(out@).skip(base.len() as int + 1));
                assert(pairs_view(out@) =~= base + (own_entry + shred_obj(
                    members@,
                    0,
                    ctx@,
                    counter as nat,
                ).0));
            }
            Ok(c)
        },
        _ => {
            proof {
                assert(shred_value(*v, ctx@, counter as nat).1 == counter as nat);
                assert(pairs_view(out@) =~= base + shred_value(*v, ctx@, counter as nat).0);
            }
            Ok(counter)
        },
    }
}

/// `kb` is the serialized key of some strict descendant of `base` whose
/// first identifier beyond `base`'s chain lies in `(lo, hi]`.
pub open spec fn entry_key_ok(kb: Seq<u8>, base: KeyV, lo: nat, hi: nat) -> bool {
    exists|k: KeyV|
        {
            &&& kb == #[trigger] key_encode_v(k)
            &&& k.ids.len() > base.ids.len()
            &&& k.ids.take(base.ids.len() as int) == base.ids
            &&& lo < k.ids[base.ids.len() as int] <= hi
        }
}

/// Every record in `entries` satisfies [`entry_key_ok`].
pub open spec fn entry_keys_below(
    entries: Seq<(Seq<u8>, Seq<u8>)>,
    base: KeyV,
    lo: nat,
    hi: nat,
) -> bool {
    forall|e: int|
        0 <= e < entries.len() ==> entry_key_ok((#[trigger] entries[e]).0, base, lo, hi)
}

/// The records' keys are pairwise distinct.
pub open spec fn keys_distinct(entries: Seq<(Seq<u8>, Seq<u8>)>) -> bool {
    forall|a: int, b: int|
        0 <= a < b < entries.len() ==> (#[trigger] entries[a]).0 != (#[trigger] entries[b]).0
}

/// A descendant record's bound can be widened.
proof fn lemma_entry_key_widen(kb: Seq<u8>, base: KeyV, lo: nat, hi: nat, lo2: nat, hi2: nat)
    requires
        entry_key_ok(kb, base, lo, hi),
        lo2 <= lo,
        hi <= hi2,
    ensures
        entry_key_ok(kb, base, lo2, hi2),
{
    let k = choose|k: KeyV|
        {
            &&& kb == #[trigger] key_encode_v(k)
            &&& k.ids.len() > base.ids.len()
            &&& k.ids.take(base.ids.len() as int) == base.ids
            &&& lo < k.ids[base.ids.len() as int] <= hi
        };
    assert(kb == key_encode_v(k) && k.ids.len() > base.ids.len() && k.ids.take(
        base.ids.len() as int,
    ) == base.ids && lo2 < k.ids[base.ids.len() as int] <= hi2);
}

/// A record under a child context is also a record under the parent
/// context, with the child's identifier as its first fresh id.
proof fn lemma_entry_key_lift(
    kb: Seq<u8>,
    base: KeyV,
    id: nat,
    idx: KeyIndexV,
    lo: nat,
    hi: nat,
    lo2: nat,
    hi2: nat,
)
    requires
        entry_key_ok(kb, child_key(base, id, idx), lo, hi),
        lo2 < id <= hi2,
    ensures
        entry_key_ok(kb, base, lo2, hi2),
{
    let ck = child_key(base, id, idx);
    let n = base.ids.len() as int;
    let k = choose|k: KeyV|
        {
            &&& kb == #[trigger] key_encode_v(k)
            &&& k.ids.len() > ck.ids.len()
            &&& k.ids.take(ck.ids.len() as int) == ck.ids
            &&& lo < k.ids[ck.ids.len() as int] <= hi
        };
    assert(k.ids.take(n + 1) == ck.ids);
    assert(k.ids.take(n) =~= k.ids.take(n + 1).take(n));
    assert(ck.ids.take(n) =~= base.ids);
    assert(k.ids[n] == k.ids.take(n + 1)[n]);
    assert(k.ids[n] == id);
    assert(kb == key_encode_v(k) && k.ids.len() > base.ids.len() && k.ids.take(
        base.ids.len() as int,
    ) == base.ids && lo2 < k.ids[base.ids.len() as int] <= hi2);
}

/// The context's own record never collides with a descendant record.
proof fn lemma_entry_key_not_base(kb: Seq<u8>, base: KeyV, lo: nat, hi: nat)
    requires
        entry_key_ok(kb, base, lo, hi),
    ensures
        kb != key_encode_v(base),
{
    let k = choose|k: KeyV|
        {
            &&& kb == #[trigger] key_encode_v(k)
            &&& k.ids.len() > base.ids.len()
            &&& k.ids.take(base.ids.len() as int) == base.ids
            &&& lo < k.ids[base.ids.len() as int] <= hi
        };
    lemma_key_encode_len_differs(base, k);
}

/// Records whose first fresh identifiers come from disjoint ranges never
/// collide: the keys branch at the first position beyond the context chain.
proof fn lemma_entry_keys_disjoint_ranges(
    kb1: Seq<u8>,
    kb2: Seq<u8>,
    base: KeyV,
    lo1: nat,
    hi1: nat,
    lo2: nat,
    hi2: nat,
)
    requires
        entry_key_ok(kb1, base, lo1, hi1),
        entry_key_ok(kb2, base, lo2, hi2),
        hi1 <= lo2,
    ensures
        kb1 != kb2,
{
    let n = base.ids.len() as int;
    let k1 = choose|k: KeyV|
        {
            &&& kb1 == #[trigger] key_encode_v(k)
            &&& k.ids.len() > base.ids.len()
            &&& k.ids.take(base.ids.len() as int) == base.ids
            &&& lo1 < k.ids[base.ids.len() as int] <= hi1
        };
    let k2 = choose|k: KeyV|
        {
            &&& kb2 == #[trigger] key_encode_v(k)
            &&& k.ids.len() > base.ids.len()
            &&& k.ids.take(base.ids.len() as int) == base.ids
            &&& lo2 < k.ids[base.ids.len() as int] <= hi2
        };
    assert(k1.ids[n] <= hi1);
    assert(lo2 < k2.ids[n]);
    assert(k1.ids[n] != k2.ids[n]);
    lemma_key_encode_branch_differs(k1, k2, n);
}

/// Shredding one node: its first record is the node's own, every further
/// record is keyed under a fresh identifier from `(counter, final]`, and
/// all record keys are pairwise distinct — every fresh identifier is issued
/// exactly once.
pub proof fn lemma_shred_value_distinct(v: JsonValue, ctx: KeyV, counter: nat)
    ensures
        shred_value(v, ctx, counter).0.len() >= 1,
        shred_value(v, ctx, counter).0[0].0 == key_encode_v(ctx),
        entry_keys_below(
            shred_value(v, ctx, counter).0.skip(1),
            ctx,
            counter,
            shred_value(v, ctx, counter).1,
        ),
        keys_distinct(shred_value(v, ctx, counter).0),
    decreases v, 0int,
{
    let own = seq![(key_encode_v(ctx), node_value_encode_v(json_node_value(v)))];
    match v {
        JsonValue::Array(items) => {
            lemma_shred_arr_distinct(items@, 0, ctx, counter);
            let (rest, c2) = shred_arr(items@, 0, ctx, counter);
            assert((own + rest).skip(1) =~= rest);
            assert(forall|e: int| 1 <= e < (own + rest).len() ==> (own + rest)[e] == rest[e - 1]);
            assert((own + rest)[0] == own[0]);
            assert forall|a: int, b: int|
                0 <= a < b < (own + rest).len() implies (#[trigger] (own + rest)[a]).0 != (
            #[trigger] (own + rest)[b]).0 by {
                if a == 0 {
                    lemma_entry_key_not_base(rest[b - 1].0, ctx, counter, c2);
                }
            }
        },
        JsonValue::Object(members) => {
            lemma_shred_obj_distinct(members@, 0, ctx, counter);
            let (rest, c2) = shred_obj(members@, 0, ctx, counter);
            assert((own + rest).skip(1) =~= rest);
            assert(forall|e: int| 1 <= e < (own + rest).len() ==> (own + rest)[e] == rest[e - 1]);
            assert((own + rest)[0] == own[0]);
            assert forall|a: int, b: int|
                0 <= a < b < (own + rest).len() implies (#[trigger] (own + rest)[a]).0 != (
            #[trigger] (own + rest)[b]).0 by {
                if a == 0 {
                    lemma_entry_key_not_base(rest[b - 1].0, ctx, counter, c2);
                }
            }
        },
        _ => {
            assert(own.skip(1) =~= Seq::<(Seq<u8>, Seq<u8>)>::empty());
        },
    }
}

/// Shredding array elements: every record is keyed under a fresh identifier
/// from `(counter, final]`, and all record keys are pairwise distinct.
proof fn lemma_shred_arr_distinct(items: Seq<JsonValue>, i: int, ctx: KeyV, counter: nat)
    ensures
        entry_keys_below(
            shred_arr(items, i, ctx, counter).0,
            ctx,
            counter,
            shred_arr(items, i, ctx, counter).1,
        ),
        keys_distinct(shred_arr(items, i, ctx, counter).0),
    decreases items, items.len() - i + 1,
{
    if 0 <= i < items.len() {
        let id = counter + 1;
        let ck = child_key(ctx, id, KeyIndexV::Id(vi_encode(i as nat)));
        let (child_entries, c2) = shred_value(items[i], ck, id);
        let (restr, c3) = shred_arr(items, i + 1, ctx, c2);
        lemma_shred_value_distinct(items[i], ck, id);
        lemma_shred_value_mono(items[i], ck, id);
        lemma_shred_arr_distinct(items, i + 1, ctx, c2);
        lemma_shred_arr_mono(items, i + 1, ctx, c2);
        assert forall|e: int| 0 <= e < child_entries.len() implies entry_key_ok(
            (#[trigger] child_entries[e]).0,
            ctx,
            counter,
            c2,
        ) by {
            if e == 0 {
                assert(child_entries[0].0 == key_encode_v(ck));
                assert(ck.ids.take(ctx.ids.len() as int) =~= ctx.ids);
                assert(ck.ids[ctx.ids.len() as int] == id);
                assert(entry_key_ok(key_encode_v(ck), ctx, counter, c2));
            } else {
                assert(child_entries.skip(1)[e - 1] == child_entries[e]);
                assert(entry_key_ok(child_entries[e].0, ck, id, c2));
                lemma_entry_key_lift(
                    child_entries[e].0,
                    ctx,
                    id,
                    KeyIndexV::Id(vi_encode(i as nat)),
                    id,
                    c2,
                    counter,
                    c2,
                );
            }
        }
        let all = child_entries + restr;
        assert(forall|e: int|
            0 <= e < child_entries.len() ==> all[e] == child_entries[e]);
        assert(forall|e: int|
            child_entries.len() <= e < all.len() ==> all[e] == restr[e - child_entries.len()]);
        assert forall|e: int| 0 <= e < all.len() implies entry_key_ok(
            (#[trigger] all[e]).0,
            ctx,
            counter,
            c3,
        ) by {
            if e < child_entries.len() {
                lemma_entry_key_widen(all[e].0, ctx, counter, c2, counter, c3);
            } else {
                assert(entry_key_ok(restr[e - child_entries.len()].0, ctx, c2, c3));
                lemma_entry_key_widen(all[e].0, ctx, c2, c3, counter, c3);
            }
        }
        assert forall|a: int, b: int| 0 <= a < b < all.len() implies (#[trigger] all[a]).0 != (
        #[trigger] all[b]).0 by {
            if a < child_entries.len() && b >= child_entries.len() {
                lemma_entry_keys_disjoint_ranges(
                    all[a].0,
                    all[b].0,
                    ctx,
                    counter,
                    c2,
                    c2,
                    c3,
                );
            }
        }
    }
}

/// Shredding object members: every record is keyed under a fresh identifier
/// from `(counter, final]`, and all record keys are pairwise distinct.
proof fn lemma_shred_obj_distinct(members: Seq<(Vec<u8>, JsonValue)>, i: int, ctx: KeyV, counter: nat)
    ensures
        entry_keys_below(
            shred_obj(members, i, ctx, counter).0,
            ctx,
            counter,
            shred_obj(members, i, ctx, counter).1,
        ),
        keys_distinct(shred_obj(members, i, ctx, counter).0),
    decreases members, members.len() - i + 1,
{
    if 0 <= i < members.len() {
        let id = counter + 1;
        let ck = child_key(ctx, id, KeyIndexV::Field(members[i].0@));
        let (child_entries, c2) = shred_value(members[i].1, ck, id);
        let (restr, c3) = shred_obj(members, i + 1, ctx, c2);
        lemma_shred_value_distinct(members[i].1, ck, id);
        lemma_shred_value_mono(members[i].1, ck, id);
        lemma_shred_obj_distinct(members, i + 1, ctx, c2);
        lemma_shred_obj_mono(members, i + 1, ctx, c2);
        assert forall|e: int| 0 <= e < child_entries.len() implies entry_key_ok(
            (#[trigger] child_entries[e]).0,
            ctx,
            counter,
            c2,
        ) by {
            if e == 0 {
                assert(child_entries[0].0 == key_encode_v(ck));
                assert(ck.ids.take(ctx.ids.len() as int) =~= ctx.ids);
                assert(ck.ids[ctx.ids.len() as int] == id);
                assert(entry_key_ok(key_encode_v(ck), ctx, counter, c2));
            } else {
                assert(child_entries.skip(1)[e - 1] == child_entries[e]);
                assert(entry_key_ok(child_entries[e].0, ck, id, c2));
                lemma_entry_key_lift(
                    child_entries[e].0,
                    ctx,
                    id,
                    KeyIndexV::Field(members[i].0@),
                    id,
                    c2,
                    counter,
                    c2,
                );
            }
        }
        let all = child_entries + restr;
        assert(forall|e: int|
            0 <= e < child_entries.len() ==> all[e] == child_entries[e]);
        assert(forall|e: int|
            child_entries.len() <= e < all.len() ==> all[e] == restr[e - child_entries.len()]);
        assert forall|e: int| 0 <= e < all.len() implies entry_key_ok(
            (#[trigger] all[e]).0,
            ctx,
            counter,
            c3,
        ) by {
            if e < child_entries.len() {
                lemma_entry_key_widen(all[e].0, ctx, counter, c2, counter, c3);
            } else {
                assert(entry_key_ok(restr[e - child_entries.len()].0, ctx, c2, c3));
                lemma_entry_key_widen(all[e].0, ctx, c2, c3, counter, c3);
            }
        }
        assert forall|a: int, b: int| 0 <= a < b < all.len() implies (#[trigger] all[a]).0 != (
        #[trigger] all[b]).0 by {
            if a < child_entries.len() && b >= child_entries.len() {
                lemma_entry_keys_disjoint_ranges(
                    all[a].0,
                    all[b].0,
                    ctx,
                    counter,
                    c2,
                    c2,
                    c3,
                );
            }
        }
    }
}

/// Unique identifiers: within one shredding, the emitted records' keys are
/// pairwise distinct — every record stands under its own freshly issued
/// identifier, and none is emitted twice.
pub proof fn lemma_shred_unique_keys(v: JsonValue, ctx: KeyV, counter: nat)
    ensures
        keys_distinct(shred_value(v, ctx, counter).0),
{
    lemma_shred_value_distinct(v, ctx, counter);
}

} // verus!
