//! Properties of the structural decoder, proved over `decoded` and its helpers.
use vstd::prelude::*;
use crate::compact::compact_decoding;
use crate::decoder::{decoded, decoded_def, decoded_list, decoded_primitive, decoded_text, repeated};
use crate::error::DecodeError;
use crate::registry::{Primitive, Registry, TypeDef, field_ids};
use crate::value::ValueModel;

verus! {

/// The bytes that decoding the types `ids` one after another takes, each
/// counted where the one before it ended.
pub open spec fn list_consumed(reg: Registry, ids: Seq<u32>, b: Seq<u8>, fuel: nat) -> nat
    decreases ids.len(),
{
    if ids.len() == 0 {
        0
    } else {
        let n0 = decoded(reg, ids[0], b, fuel)->Ok_0.1;
        n0 + list_consumed(reg, ids.drop_first(), b.skip(n0 as int), fuel)
    }
}

proof fn lemma_list_consumed(reg: Registry, ids: Seq<u32>, b: Seq<u8>, fuel: nat)
    requires
        decoded_list(reg, ids, b, fuel) is Ok,
    ensures
        decoded_list(reg, ids, b, fuel)->Ok_0.1 == list_consumed(reg, ids, b, fuel),
        decoded_list(reg, ids, b, fuel)->Ok_0.0.len() == ids.len(),
    decreases ids.len(),
{
    if ids.len() > 0 {
        let n0 = decoded(reg, ids[0], b, fuel)->Ok_0.1;
        lemma_list_consumed(reg, ids.drop_first(), b.skip(n0 as int), fuel);
    }
}

/// Decoding a composite takes exactly the bytes of its fields, decoded one
/// after another with nothing between them, and gives one value per field.
pub proof fn lemma_composite_exact(reg: Registry, id: u32, b: Seq<u8>, fuel: nat)
    requires
        reg.has(id),
        reg.entry(id).def is Composite,
        decoded(reg, id, b, fuel) is Ok,
    ensures
        ({
            let fields = reg.entry(id).def->Composite_0@;
            &&& fuel > 0
            &&& decoded(reg, id, b, fuel)->Ok_0.1 == list_consumed(
                reg,
                field_ids(fields),
                b,
                (fuel - 1) as nat,
            )
            &&& decoded(reg, id, b, fuel)->Ok_0.0 matches ValueModel::Composite(vs) && vs.len()
                == fields.len()
        }),
{
    let fields = reg.entry(id).def->Composite_0@;
    lemma_list_consumed(reg, field_ids(fields), b, (fuel - 1) as nat);
}

proof fn lemma_repeat_consumed(reg: Registry, e: u32, k: nat, b: Seq<u8>, fuel: nat, w: nat)
    requires
        decoded_list(reg, repeated(e, k), b, fuel) is Ok,
        forall|c: Seq<u8>| #[trigger]
            decoded(reg, e, c, fuel) is Ok ==> decoded(reg, e, c, fuel)->Ok_0.1 == w,
    ensures
        decoded_list(reg, repeated(e, k), b, fuel)->Ok_0.1 == k * w,
        decoded_list(reg, repeated(e, k), b, fuel)->Ok_0.0.len() == k,
    decreases k,
{
    if k > 0 {
        let ids = repeated(e, k);
        assert(ids.drop_first() =~= repeated(e, (k - 1) as nat));
        assert(ids[0] == e);
        let n0 = decoded(reg, e, b, fuel)->Ok_0.1;
        lemma_repeat_consumed(reg, e, (k - 1) as nat, b.skip(n0 as int), fuel, w);
        assert(w + (k - 1) * w == k * w) by (nonlinear_arith)
            requires
                k > 0,
        ;
    }
}

/// A sequence whose elements each take `w` bytes, and whose count prefix
/// says `k`, takes exactly the prefix's bytes plus `k * w`.
pub proof fn lemma_sequence_exact(reg: Registry, id: u32, b: Seq<u8>, fuel: nat, w: nat)
    requires
        reg.has(id),
        reg.entry(id).def is Sequence,
        fuel > 0,
        forall|c: Seq<u8>| #[trigger]
            decoded(reg, reg.entry(id).def->Sequence_0, c, (fuel - 1) as nat) is Ok
                ==> decoded(reg, reg.entry(id).def->Sequence_0, c, (fuel - 1) as nat)->Ok_0.1 == w,
        decoded(reg, id, b, fuel) is Ok,
    ensures
        compact_decoding(b) is Ok,
        decoded(reg, id, b, fuel)->Ok_0.1 == compact_decoding(b)->Ok_0.1 + compact_decoding(
            b,
        )->Ok_0.0 * w,
        decoded(reg, id, b, fuel)->Ok_0.0 matches ValueModel::Sequence(vs) && vs.len()
            == compact_decoding(b)->Ok_0.0,
{
    let e = reg.entry(id).def->Sequence_0;
    let (k, m) = compact_decoding(b)->Ok_0;
    lemma_repeat_consumed(reg, e, k as nat, b.skip(m as int), (fuel - 1) as nat, w);
}

/// `b` and `c` both hold at least `n` bytes and agree on the first `n`.
pub open spec fn agree(b: Seq<u8>, c: Seq<u8>, n: nat) -> bool {
    &&& n <= b.len()
    &&& n <= c.len()
    &&& forall|j: int| 0 <= j < n ==> b[j] == c[j]
}

proof fn lemma_agree_take(b: Seq<u8>, c: Seq<u8>, n: nat, m: nat)
    requires
        agree(b, c, n),
        m <= n,
    ensures
        b.take(m as int) =~= c.take(m as int),
{
}

proof fn lemma_agree_sub(b: Seq<u8>, c: Seq<u8>, n: nat, lo: int, hi: int)
    requires
        agree(b, c, n),
        0 <= lo <= hi <= n,
    ensures
        b.subrange(lo, hi) =~= c.subrange(lo, hi),
{
}

proof fn lemma_agree_skip(b: Seq<u8>, c: Seq<u8>, n: nat, m: nat)
    requires
        agree(b, c, n),
        m <= n,
    ensures
        agree(b.skip(m as int), c.skip(m as int), (n - m) as nat),
{
}

proof fn lemma_compact_frame(b: Seq<u8>, c: Seq<u8>)
    requires
        compact_decoding(b) is Ok,
    ensures
        compact_decoding(b)->Ok_0.1 <= b.len(),
        agree(b, c, compact_decoding(b)->Ok_0.1) ==> compact_decoding(c) == compact_decoding(b),
{
    let n = compact_decoding(b)->Ok_0.1;
    if agree(b, c, n) {
        assert(b[0] == c[0]);
        if b[0] % 4 == 1 {
            lemma_agree_take(b, c, n, 2);
        } else if b[0] % 4 == 2 {
            lemma_agree_take(b, c, n, 4);
        } else if b[0] % 4 == 3 {
            lemma_agree_sub(b, c, n, 1, n as int);
        }
    }
}

proof fn lemma_compact_truncate(b: Seq<u8>, k: nat)
    requires
        compact_decoding(b) is Ok,
        k < compact_decoding(b)->Ok_0.1,
    ensures
        compact_decoding(b.take(k as int)) == Err::<(u128, nat), DecodeError>(DecodeError::BufferUnderrun),
{
    lemma_compact_frame(b, b);
    if k > 0 {
        assert(b.take(k as int)[0] == b[0]);
    }
}

proof fn lemma_text_frame(b: Seq<u8>, c: Seq<u8>)
    requires
        decoded_text(b) is Ok,
    ensures
        decoded_text(b)->Ok_0.1 <= b.len(),
        agree(b, c, decoded_text(b)->Ok_0.1) ==> decoded_text(c) == decoded_text(b),
{
    let n = decoded_text(b)->Ok_0.1;
    lemma_compact_frame(b, c);
    let (len, m) = compact_decoding(b)->Ok_0;
    if agree(b, c, n) {
        assert(agree(b, c, m));
        lemma_agree_sub(b, c, n, m as int, n as int);
    }
}

proof fn lemma_text_truncate(b: Seq<u8>, k: nat)
    requires
        decoded_text(b) is Ok,
        k < decoded_text(b)->Ok_0.1,
    ensures
        decoded_text(b.take(k as int)) == Err::<(Seq<char>, nat), DecodeError>(DecodeError::BufferUnderrun),
{
    lemma_text_frame(b, b);
    let (len, m) = compact_decoding(b)->Ok_0;
    if k < m {
        lemma_compact_truncate(b, k);
    } else {
        lemma_compact_frame(b, b.take(k as int));
    }
}

proof fn lemma_primitive_frame(p: Primitive, b: Seq<u8>, c: Seq<u8>)
    requires
        decoded_primitive(p, b) is Ok,
    ensures
        decoded_primitive(p, b)->Ok_0.1 <= b.len(),
        agree(b, c, decoded_primitive(p, b)->Ok_0.1) ==> decoded_primitive(p, c) == decoded_primitive(p, b),
{
    let n = decoded_primitive(p, b)->Ok_0.1;
    match p {
        Primitive::Char | Primitive::Str => {
            lemma_text_frame(b, c);
        },
        Primitive::Bool => {},
        _ => {
            if agree(b, c, n) {
                lemma_agree_take(b, c, n, n);
            }
        },
    }
}

proof fn lemma_primitive_truncate(p: Primitive, b: Seq<u8>, k: nat)
    requires
        decoded_primitive(p, b) is Ok,
        k < decoded_primitive(p, b)->Ok_0.1,
    ensures
        decoded_primitive(p, b.take(k as int)) == Err::<(ValueModel, nat), DecodeError>(DecodeError::BufferUnderrun),
{
    lemma_primitive_frame(p, b, b);
    match p {
        Primitive::Char | Primitive::Str => {
            lemma_text_truncate(b, k);
        },
        _ => {},
    }
}

proof fn lemma_frame(reg: Registry, id: u32, b: Seq<u8>, c: Seq<u8>, fuel: nat)
    requires
        decoded(reg, id, b, fuel) is Ok,
    ensures
        decoded(reg, id, b, fuel)->Ok_0.1 <= b.len(),
        agree(b, c, decoded(reg, id, b, fuel)->Ok_0.1) ==> decoded(reg, id, c, fuel) == decoded(reg, id, b, fuel),
    decreases fuel, 0nat, 0nat,
{
    lemma_def_frame(reg, reg.entry(id).def, b, c, (fuel - 1) as nat);
}

proof fn lemma_def_frame(reg: Registry, def: TypeDef, b: Seq<u8>, c: Seq<u8>, fuel: nat)
    requires
        decoded_def(reg, def, b, fuel) is Ok,
    ensures
        decoded_def(reg, def, b, fuel)->Ok_0.1 <= b.len(),
        agree(b, c, decoded_def(reg, def, b, fuel)->Ok_0.1) ==> decoded_def(reg, def, c, fuel) == decoded_def(reg, def, b, fuel),
    decreases fuel, 2nat, 0nat,
{
    match def {
        TypeDef::Primitive(k) => lemma_primitive_frame(k, b, c),
        TypeDef::Composite(fields) => lemma_list_frame(reg, field_ids(fields@), b, c, fuel),
        TypeDef::Tuple(ids) => lemma_list_frame(reg, ids@, b, c, fuel),
        TypeDef::Array(e, len) => lemma_list_frame(reg, repeated(e, len as nat), b, c, fuel),
        TypeDef::Sequence(e) => {
            let n = decoded_def(reg, def, b, fuel)->Ok_0.1;
            lemma_compact_frame(b, c);
            let (k, m) = compact_decoding(b)->Ok_0;
            lemma_list_frame(reg, repeated(e, k as nat), b.skip(m as int), c.skip(m as int), fuel);
            if agree(b, c, n) {
                assert(agree(b, c, m));
                lemma_agree_skip(b, c, n, m);
            }
        },
        TypeDef::Compact(e) => lemma_compact_frame(b, c),
        _ => {},
    }
}

proof fn lemma_list_frame(reg: Registry, ids: Seq<u32>, b: Seq<u8>, c: Seq<u8>, fuel: nat)
    requires
        decoded_list(reg, ids, b, fuel) is Ok,
    ensures
        decoded_list(reg, ids, b, fuel)->Ok_0.1 <= b.len(),
        agree(b, c, decoded_list(reg, ids, b, fuel)->Ok_0.1) ==> decoded_list(reg, ids, c, fuel) == decoded_list(reg, ids, b, fuel),
    decreases fuel, 1nat, ids.len(),
{
    if ids.len() > 0 {
        let n = decoded_list(reg, ids, b, fuel)->Ok_0.1;
        lemma_frame(reg, ids[0], b, c, fuel);
        let n0 = decoded(reg, ids[0], b, fuel)->Ok_0.1;
        lemma_list_frame(reg, ids.drop_first(), b.skip(n0 as int), c.skip(n0 as int), fuel);
        if agree(b, c, n) {
            assert(agree(b, c, n0));
            lemma_agree_skip(b, c, n, n0);
        }
    }
}

proof fn lemma_truncate(reg: Registry, id: u32, b: Seq<u8>, fuel: nat, k: nat)
    requires
        decoded(reg, id, b, fuel) is Ok,
        k < decoded(reg, id, b, fuel)->Ok_0.1,
    ensures
        decoded(reg, id, b.take(k as int), fuel) == Err::<(ValueModel, nat), DecodeError>(DecodeError::BufferUnderrun),
    decreases fuel, 0nat, 0nat,
{
    lemma_def_truncate(reg, reg.entry(id).def, b, (fuel - 1) as nat, k);
}

proof fn lemma_def_truncate(reg: Registry, def: TypeDef, b: Seq<u8>, fuel: nat, k: nat)
    requires
        decoded_def(reg, def, b, fuel) is Ok,
        k < decoded_def(reg, def, b, fuel)->Ok_0.1,
    ensures
        decoded_def(reg, def, b.take(k as int), fuel) == Err::<(ValueModel, nat), DecodeError>(DecodeError::BufferUnderrun),
    decreases fuel, 2nat, 0nat,
{
    lemma_def_frame(reg, def, b, b, fuel);
    match def {
        TypeDef::Primitive(p) => lemma_primitive_truncate(p, b, k),
        TypeDef::Composite(fields) => lemma_list_truncate(reg, field_ids(fields@), b, fuel, k),
        TypeDef::Tuple(ids) => lemma_list_truncate(reg, ids@, b, fuel, k),
        TypeDef::Array(e, len) => lemma_list_truncate(reg, repeated(e, len as nat), b, fuel, k),
        TypeDef::Sequence(e) => {
            let (cnt, m) = compact_decoding(b)->Ok_0;
            if k < m {
                lemma_compact_truncate(b, k);
            } else {
                lemma_compact_frame(b, b.take(k as int));
                let rest = b.skip(m as int);
                lemma_list_truncate(reg, repeated(e, cnt as nat), rest, fuel, (k - m) as nat);
                assert(b.take(k as int).skip(m as int) =~= rest.take(k - m));
            }
        },
        TypeDef::Compact(e) => lemma_compact_truncate(b, k),
        _ => {},
    }
}

proof fn lemma_list_truncate(reg: Registry, ids: Seq<u32>, b: Seq<u8>, fuel: nat, k: nat)
    requires
        decoded_list(reg, ids, b, fuel) is Ok,
        k < decoded_list(reg, ids, b, fuel)->Ok_0.1,
    ensures
        decoded_list(reg, ids, b.take(k as int), fuel) == Err::<(Seq<ValueModel>, nat), DecodeError>(DecodeError::BufferUnderrun),
    decreases fuel, 1nat, ids.len(),
{
    lemma_list_frame(reg, ids, b, b, fuel);
    let n0 = decoded(reg, ids[0], b, fuel)->Ok_0.1;
    if k < n0 {
        lemma_truncate(reg, ids[0], b, fuel, k);
    } else {
        lemma_frame(reg, ids[0], b, b.take(k as int), fuel);
        let rest = b.skip(n0 as int);
        lemma_list_truncate(reg, ids.drop_first(), rest, fuel, (k - n0) as nat);
        assert(b.take(k as int).skip(n0 as int) =~= rest.take(k - n0));
    }
}

/// Decoding never reads past its input, and a buffer cut anywhere short of
/// the bytes that a successful decode takes fails with `BufferUnderrun`,
/// never with another error or a value.
pub proof fn lemma_truncated_buffer_underruns(reg: Registry, id: u32, b: Seq<u8>, fuel: nat, k: nat)
    requires
        decoded(reg, id, b, fuel) is Ok,
        k < decoded(reg, id, b, fuel)->Ok_0.1,
    ensures
        decoded(reg, id, b, fuel)->Ok_0.1 <= b.len(),
        decoded(reg, id, b.take(k as int), fuel) == Err::<(ValueModel, nat), DecodeError>(DecodeError::BufferUnderrun),
{
    lemma_frame(reg, id, b, b, fuel);
    lemma_truncate(reg, id, b, fuel, k);
}

} // verus!
