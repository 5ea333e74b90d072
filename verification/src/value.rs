//! Finished values and the atom trail. While a parse session runs, every
//! completed primitive or chosen discriminant is recorded as an `Atom`; when
//! the session finishes, the atom trail is assembled back into a `Value`
//! following the shape of the type description.

use vstd::prelude::*;

use crate::desc::FieldSpec;
use crate::desc::FieldV;
use crate::desc::PrimitiveKind;
use crate::desc::TdV;
use crate::desc::TypeDescription;
use crate::desc::VariantKind;
use crate::desc::VariantKindV;
use crate::desc::fields_view;
use crate::desc::lemma_fields_view_index;
use crate::desc::lemma_variants_view_index;
use crate::desc::variants_view;

verus! {

/// A finished parsed value.
#[derive(PartialEq, Eq, Debug)]
pub enum Value {
    IntegerValue(u64),
    TextValue(Vec<u8>),
    RecordValue(Vec<(Vec<u8>, Value)>),
    VariantValue { name: Vec<u8>, payload: Option<Box<Value>> },
}

/// Mathematical model of a `Value`.
pub enum ValueV {
    IntegerValue(u64),
    TextValue(Seq<u8>),
    RecordValue(Seq<(Seq<u8>, ValueV)>),
    VariantValue { name: Seq<u8>, payload: Option<Box<ValueV>> },
}

pub open spec fn value_fields_view(fs: Seq<(Vec<u8>, Value)>) -> Seq<(Seq<u8>, ValueV)>
    decreases fs,
{
    if fs.len() == 0 {
        Seq::empty()
    } else {
        value_fields_view(fs.drop_last()).push((fs.last().0@, value_view(fs.last().1)))
    }
}

pub open spec fn value_view(v: Value) -> ValueV
    decreases v,
{
    match v {
        Value::IntegerValue(n) => ValueV::IntegerValue(n),
        Value::TextValue(b) => ValueV::TextValue(b@),
        Value::RecordValue(fs) => ValueV::RecordValue(value_fields_view(fs@)),
        Value::VariantValue { name, payload } => ValueV::VariantValue {
            name: name@,
            payload: match payload {
                Option::Some(p) => Option::Some(Box::new(value_view(*p))),
                Option::None => Option::None,
            },
        },
    }
}

impl View for Value {
    type V = ValueV;

    open spec fn view(&self) -> ValueV {
        value_view(*self)
    }
}

/// One recorded event of a parse session: a completed integer, a completed
/// string body, or a chosen union variant.
#[derive(PartialEq, Eq, Debug)]
pub enum Atom {
    IntAtom(u64),
    TextAtom(Vec<u8>),
    ChoiceAtom(usize),
}

/// Mathematical model of an `Atom`.
pub enum AtomV {
    IntAtom(u64),
    TextAtom(Seq<u8>),
    ChoiceAtom(usize),
}

impl View for Atom {
    type V = AtomV;

    open spec fn view(&self) -> AtomV {
        match self {
            Atom::IntAtom(n) => AtomV::IntAtom(*n),
            Atom::TextAtom(b) => AtomV::TextAtom(b@),
            Atom::ChoiceAtom(i) => AtomV::ChoiceAtom(*i),
        }
    }
}

pub open spec fn atoms_view(s: Seq<Atom>) -> Seq<AtomV> {
    s.map_values(|a: Atom| a@)
}

/// Assembles the record fields of one shape from the atom trail, returning
/// the field values and the position after them.
pub open spec fn spec_assemble_fields(fields: Seq<FieldV>, atoms: Seq<AtomV>, i: int) -> Option<
    (Seq<(Seq<u8>, ValueV)>, int),
>
    decreases fields,
{
    if fields.len() == 0 {
        Option::Some((Seq::empty(), i))
    } else {
        match spec_assemble(fields[0].ty, atoms, i) {
            Option::None => Option::None,
            Option::Some((v, j)) => match spec_assemble_fields(fields.drop_first(), atoms, j) {
                Option::None => Option::None,
                Option::Some((rest, k)) => Option::Some(
                    (seq![(fields[0].serialized_name, v)] + rest, k),
                ),
            },
        }
    }
}

/// Assembles one value of the given shape from the atom trail starting at
/// position `i`, returning the value and the position after it.
pub open spec fn spec_assemble(t: TdV, atoms: Seq<AtomV>, i: int) -> Option<(ValueV, int)>
    decreases t,
{
    match t {
        TdV::Primitive { kind: PrimitiveKind::Integer, .. } => {
            if 0 <= i < atoms.len() && atoms[i] is IntAtom {
                Option::Some((ValueV::IntegerValue(atoms[i]->IntAtom_0), i + 1))
            } else {
                Option::None
            }
        },
        TdV::Primitive { kind: PrimitiveKind::Text, .. } => {
            if 0 <= i < atoms.len() && atoms[i] is TextAtom {
                Option::Some((ValueV::TextValue(atoms[i]->TextAtom_0), i + 1))
            } else {
                Option::None
            }
        },
        TdV::Record { fields } => {
            match spec_assemble_fields(fields, atoms, i) {
                Option::None => Option::None,
                Option::Some((fs, j)) => Option::Some((ValueV::RecordValue(fs), j)),
            }
        },
        TdV::Union { variants, .. } => {
            if 0 <= i < atoms.len() && (atoms[i] matches AtomV::ChoiceAtom(k) && k
                < variants.len()) {
                let k = atoms[i]->ChoiceAtom_0;
                match variants[k as int].kind {
                    VariantKindV::Unit => Option::Some(
                        (
                            ValueV::VariantValue {
                                name: variants[k as int].name,
                                payload: Option::None,
                            },
                            i + 1,
                        ),
                    ),
                    VariantKindV::Tuple(inner) => match spec_assemble(*inner, atoms, i + 1) {
                        Option::None => Option::None,
                        Option::Some((v, j)) => Option::Some(
                            (
                                ValueV::VariantValue {
                                    name: variants[k as int].name,
                                    payload: Option::Some(Box::new(v)),
                                },
                                j,
                            ),
                        ),
                    },
                    VariantKindV::Record(fields) => match spec_assemble_fields(
                        fields,
                        atoms,
                        i + 1,
                    ) {
                        Option::None => Option::None,
                        Option::Some((fs, j)) => Option::Some(
                            (
                                ValueV::VariantValue {
                                    name: variants[k as int].name,
                                    payload: Option::Some(Box::new(ValueV::RecordValue(fs))),
                                },
                                j,
                            ),
                        ),
                    },
                }
            } else {
                Option::None
            }
        },
    }
}

/// Byte-for-byte copy of a name (shared with assembly).
fn copy_bytes(src: &Vec<u8>) -> (r: Vec<u8>)
    ensures
        r@ == src@,
{
    let mut out: Vec<u8> = Vec::new();
    let mut i: usize = 0;
    while i < src.len()
        invariant
            0 <= i <= src.len(),
            out@ == src@.subrange(0, i as int),
        decreases src.len() - i,
    {
        out.push(src[i]);
        assert(out@ =~= src@.subrange(0, i as int + 1));
        i = i + 1;
    }
    proof {
        assert(out@ =~= src@);
    }
    out
}

/// Assembles the fields of one record shape from the atom trail.
#[verifier::loop_isolation(false)]
fn assemble_fields(fields: &Vec<FieldSpec>, atoms: &Vec<Atom>, start: usize) -> (r: Option<
    (Vec<(Vec<u8>, Value)>, usize),
>)
    requires
        start <= atoms@.len(),
    ensures
        r is None ==> spec_assemble_fields(fields_view(fields@), atoms_view(atoms@), start as int)
            is None,
        r matches Some((vs, j)) ==> spec_assemble_fields(
            fields_view(fields@),
            atoms_view(atoms@),
            start as int,
        ) == Option::Some((value_fields_view(vs@), j as int)) && j <= atoms@.len(),
    decreases fields@, 1int,
{
    proof {
        lemma_fields_view_index(fields@);
    }
    let ghost fv = fields_view(fields@);
    let mut out: Vec<(Vec<u8>, Value)> = Vec::new();
    let mut pos: usize = start;
    let n = fields.len();
    proof {
        assert(fv.subrange(0, n as int) =~= fv);
        if let Option::Some((rest, k)) = spec_assemble_fields(fv, atoms_view(atoms@), start as int) {
            assert(value_fields_view(out@) + rest =~= rest);
        }
    }
    let mut i: usize = 0;
    while i < n
        invariant
            0 <= i <= n,
            pos <= atoms@.len(),
            spec_assemble_fields(fv, atoms_view(atoms@), start as int) == (match
                spec_assemble_fields(fv.subrange(i as int, n as int), atoms_view(atoms@), pos as int) {
                Option::None => Option::None::<(Seq<(Seq<u8>, ValueV)>, int)>,
                Option::Some((rest, k)) => Option::Some((value_fields_view(out@) + rest, k)),
            }),
        decreases n - i,
    {
        proof {
            vstd::seq::axiom_seq_index_decreases(fields@, i as int);
            assert(decreases_to!(fields@ => fields@[i as int]));
        }
        let ghost tail = fv.subrange(i as int, n as int);
        proof {
            assert(tail[0] == fv[i as int]);
            assert(tail.drop_first() =~= fv.subrange(i as int + 1, n as int));
        }
        match assemble(&fields[i].ty, atoms, pos) {
            Option::None => {
                return Option::None;
            },
            Option::Some((v, j)) => {
                let ghost out_before = out@;
                let ghost vv = v@;
                out.push((copy_bytes(&fields[i].serialized_name), v));
                proof {
                    assert(out@.drop_last() =~= out_before);
                    assert(value_fields_view(out@) == value_fields_view(out_before).push(
                        (fv[i as int].serialized_name, vv),
                    ));
                    if let Option::Some((rest, k)) = spec_assemble_fields(
                        tail.drop_first(),
                        atoms_view(atoms@),
                        j as int,
                    ) {
                        assert(value_fields_view(out@) + rest =~= value_fields_view(out_before) + (
                        seq![(fv[i as int].serialized_name, vv)] + rest));
                    }
                }
                pos = j;
            },
        }
        i = i + 1;
    }
    proof {
        assert(fv.subrange(n as int, n as int) =~= Seq::<FieldV>::empty());
        assert(value_fields_view(out@) + Seq::<(Seq<u8>, ValueV)>::empty() =~= value_fields_view(
            out@,
        ));
    }
    Option::Some((out, pos))
}

/// Assembles one value of the given shape from the atom trail, mirroring
/// `spec_assemble` exactly.
#[verifier::loop_isolation(false)]
pub fn assemble(td: &TypeDescription, atoms: &Vec<Atom>, start: usize) -> (r: Option<
    (Value, usize),
>)
    requires
        start <= atoms@.len(),
    ensures
        r is None ==> spec_assemble(td@, atoms_view(atoms@), start as int) is None,
        r matches Some((v, j)) ==> spec_assemble(td@, atoms_view(atoms@), start as int)
            == Option::Some((v@, j as int)) && j <= atoms@.len(),
    decreases *td, 0int,
{
    match td {
        TypeDescription::Primitive { kind: PrimitiveKind::Integer, .. } => {
            if start < atoms.len() {
                match &atoms[start] {
                    Atom::IntAtom(n) => Option::Some((Value::IntegerValue(*n), start + 1)),
                    _ => Option::None,
                }
            } else {
                Option::None
            }
        },
        TypeDescription::Primitive { kind: PrimitiveKind::Text, .. } => {
            if start < atoms.len() {
                match &atoms[start] {
                    Atom::TextAtom(b) => Option::Some((Value::TextValue(copy_bytes(b)), start + 1)),
                    _ => Option::None,
                }
            } else {
                Option::None
            }
        },
        TypeDescription::Record { fields } => {
            proof {
                assert(td@ matches TdV::Record { fields: fv } && fv == fields_view(fields@));
                assert(decreases_to!(*td => (*td)->Record_fields));
            }
            match assemble_fields(fields, atoms, start) {
                Option::None => Option::None,
                Option::Some((fs, j)) => Option::Some((Value::RecordValue(fs), j)),
            }
        },
        TypeDescription::Union { variants, .. } => {
            proof {
                lemma_variants_view_index(variants@);
                assert(td@ matches TdV::Union { variants: vv, .. } && vv == variants_view(
                    variants@,
                ));
            }
            if start < atoms.len() {
                let k: usize = match &atoms[start] {
                    Atom::ChoiceAtom(k) => *k,
                    _ => {
                        return Option::None;
                    },
                };
                if k >= variants.len() {
                    return Option::None;
                }
                proof {
                    assert(atoms_view(atoms@)[start as int] == atoms@[start as int]@);
                    assert(atoms_view(atoms@)[start as int] == AtomV::ChoiceAtom(k));
                    assert(variants_view(variants@)[k as int] == crate::desc::variant_view(
                        variants@[k as int],
                    ));
                    vstd::seq::axiom_seq_index_decreases(variants@, k as int);
                    assert(decreases_to!(*td => (*td)->Union_variants));
                    assert(decreases_to!(*td => variants@[k as int]));
                }
                match &variants[k].kind {
                    VariantKind::Unit => Option::Some(
                        (
                            Value::VariantValue {
                                name: copy_bytes(&variants[k].name),
                                payload: Option::None,
                            },
                            start + 1,
                        ),
                    ),
                    VariantKind::Tuple(inner) => {
                        match assemble(inner, atoms, start + 1) {
                            Option::None => Option::None,
                            Option::Some((v, j)) => {
                                proof {
                                    assert(spec_assemble(
                                        *(variants_view(variants@)[k as int].kind->Tuple_0),
                                        atoms_view(atoms@),
                                        start as int + 1,
                                    ) == Option::Some((v@, j as int)));
                                }
                                Option::Some(
                                    (
                                        Value::VariantValue {
                                            name: copy_bytes(&variants[k].name),
                                            payload: Option::Some(Box::new(v)),
                                        },
                                        j,
                                    ),
                                )
                            },
                        }
                    },
                    VariantKind::Record(fields) => {
                        match assemble_fields(fields, atoms, start + 1) {
                            Option::None => Option::None,
                            Option::Some((fs, j)) => {
                                proof {
                                    reveal_with_fuel(value_view, 3);
                                    assert(variants_view(variants@)[k as int].kind matches
                                        VariantKindV::Record(f2) && f2 == fields_view(fields@));
                                    assert(spec_assemble_fields(
                                        fields_view(fields@),
                                        atoms_view(atoms@),
                                        start as int + 1,
                                    ) == Option::Some((value_fields_view(fs@), j as int)));
                                }
                                Option::Some(
                                    (
                                        Value::VariantValue {
                                            name: copy_bytes(&variants[k].name),
                                            payload: Option::Some(Box::new(Value::RecordValue(fs))),
                                        },
                                        j,
                                    ),
                                )
                            },
                        }
                    },
                }
            } else {
                Option::None
            }
        },
    }
}

} // verus!
