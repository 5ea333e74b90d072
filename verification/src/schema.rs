//! The schema side of the library: a `SchemaNode` tree describes the set of
//! valid serialized values of a type, and renders to a schema document. The
//! compiler maps a well-formed `TypeDescription` to its `SchemaNode`; the
//! spec function `schema_of` is the mathematical statement of that mapping.

use vstd::prelude::*;

use crate::desc::Bounds;
use crate::desc::Dfa;
use crate::desc::DfaV;
use crate::desc::ConstraintV;
use crate::desc::Constraint;
use crate::desc::FieldV;
use crate::desc::FieldSpec;
use crate::desc::MalformedSpec;
use crate::desc::PrimitiveKind;
use crate::desc::TdV;
use crate::desc::TypeDescription;
use crate::desc::VariantKind;
use crate::desc::VariantKindV;
use crate::desc::VariantSpec;
use crate::desc::VariantV;
use crate::desc::field_names;
use crate::desc::fields_view;
use crate::desc::lemma_fields_view_index;
use crate::desc::lemma_variants_view_index;
use crate::desc::td_view;
use crate::desc::validate;
use crate::desc::variant_names;
use crate::desc::variants_view;
use crate::desc::wf_td;

verus! {

/// One node of the schema model: immutable, pure data, produced once per
/// type. Objects always close their property set (`additionalProperties`
/// renders as false).
#[derive(Debug)]
pub enum SchemaNode {
    Object { properties: Vec<(Vec<u8>, SchemaNode)>, required: Vec<Vec<u8>> },
    OneOf { alternatives: Vec<SchemaNode> },
    Enum { values: Vec<Vec<u8>> },
    Const { value: Vec<u8> },
    IntegerConstrained { range: Bounds },
    Integer,
    StringConstrained { length: Option<Bounds>, pattern: Option<Dfa> },
    Text,
    Array { item: Box<SchemaNode> },
}

/// Mathematical model of a `SchemaNode`.
pub enum SchemaV {
    Object { properties: Seq<(Seq<u8>, SchemaV)>, required: Seq<Seq<u8>> },
    OneOf { alternatives: Seq<SchemaV> },
    Enum { values: Seq<Seq<u8>> },
    Const { value: Seq<u8> },
    IntegerConstrained { range: Bounds },
    Integer,
    StringConstrained { length: Option<Bounds>, pattern: Option<DfaV> },
    Text,
    Array { item: Box<SchemaV> },
}

pub open spec fn props_view(props: Seq<(Vec<u8>, SchemaNode)>) -> Seq<(Seq<u8>, SchemaV)>
    decreases props,
{
    if props.len() == 0 {
        Seq::empty()
    } else {
        props_view(props.drop_last()).push(
            (props.last().0@, schema_view(props.last().1)),
        )
    }
}

pub open spec fn alts_view(alts: Seq<SchemaNode>) -> Seq<SchemaV>
    decreases alts,
{
    if alts.len() == 0 {
        Seq::empty()
    } else {
        alts_view(alts.drop_last()).push(schema_view(alts.last()))
    }
}

pub open spec fn schema_view(s: SchemaNode) -> SchemaV
    decreases s,
{
    match s {
        SchemaNode::Object { properties, required } => SchemaV::Object {
            properties: props_view(properties@),
            required: required@.map_values(|n: Vec<u8>| n@),
        },
        SchemaNode::OneOf { alternatives } => SchemaV::OneOf { alternatives: alts_view(alternatives@) },
        SchemaNode::Enum { values } => SchemaV::Enum { values: values@.map_values(|n: Vec<u8>| n@) },
        SchemaNode::Const { value } => SchemaV::Const { value: value@ },
        SchemaNode::IntegerConstrained { range } => SchemaV::IntegerConstrained { range },
        SchemaNode::Integer => SchemaV::Integer,
        SchemaNode::StringConstrained { length, pattern } => SchemaV::StringConstrained {
            length,
            pattern: match pattern {
                Option::Some(d) => Option::Some(d@),
                Option::None => Option::None,
            },
        },
        SchemaNode::Text => SchemaV::Text,
        SchemaNode::Array { item } => SchemaV::Array { item: Box::new(schema_view(*item)) },
    }
}

impl View for SchemaNode {
    type V = SchemaV;

    open spec fn view(&self) -> SchemaV {
        schema_view(*self)
    }
}

pub proof fn lemma_props_view_index(s: Seq<(Vec<u8>, SchemaNode)>)
    ensures
        props_view(s).len() == s.len(),
        forall|i: int|
            0 <= i < s.len() ==> (#[trigger] props_view(s)[i]) == (s[i].0@, schema_view(s[i].1)),
    decreases s,
{
    if s.len() > 0 {
        lemma_props_view_index(s.drop_last());
        assert forall|i: int| 0 <= i < s.len() implies (#[trigger] props_view(s)[i]) == (
            s[i].0@,
            schema_view(s[i].1),
        ) by {
            if i < s.len() - 1 {
                assert(s.drop_last()[i] == s[i]);
                assert(props_view(s)[i] == props_view(s.drop_last())[i]);
            } else {
                assert(s.last() == s[i]);
            }
        }
    }
}

pub proof fn lemma_alts_view_index(s: Seq<SchemaNode>)
    ensures
        alts_view(s).len() == s.len(),
        forall|i: int| 0 <= i < s.len() ==> (#[trigger] alts_view(s)[i]) == schema_view(s[i]),
    decreases s,
{
    if s.len() > 0 {
        lemma_alts_view_index(s.drop_last());
        assert forall|i: int| 0 <= i < s.len() implies (#[trigger] alts_view(s)[i]) == schema_view(
            s[i],
        ) by {
            if i < s.len() - 1 {
                assert(s.drop_last()[i] == s[i]);
                assert(alts_view(s)[i] == alts_view(s.drop_last())[i]);
            } else {
                assert(s.last() == s[i]);
            }
        }
    }
}

/// The fixed discriminant key of the default (mixed) union encoding.
pub open spec fn mixed_tag_key() -> Seq<u8> {
    seq![116u8, 121u8, 112u8, 101u8]
}

/// The fixed payload key of the default (mixed) union encoding.
pub open spec fn mixed_content_key() -> Seq<u8> {
    seq![100u8, 97u8, 116u8, 97u8]
}

/// True when every variant of the union carries no payload.
pub open spec fn all_unit(variants: Seq<VariantV>) -> bool {
    forall|i: int| 0 <= i < variants.len() ==> (#[trigger] variants[i].kind) is Unit
}

/// The object alternative that one union variant contributes under a tagged
/// encoding with the given key names: a singleton-const discriminant
/// property, plus a content property when the variant carries a payload.
pub open spec fn alt_of(v: VariantV, tag: Seq<u8>, content: Seq<u8>) -> SchemaV
    decreases v,
{
    match v.kind {
        VariantKindV::Unit => SchemaV::Object {
            properties: seq![(tag, SchemaV::Const { value: v.name })],
            required: seq![tag],
        },
        VariantKindV::Tuple(t) => SchemaV::Object {
            properties: seq![
                (tag, SchemaV::Const { value: v.name }),
                (content, schema_of(*t)),
            ],
            required: seq![tag, content],
        },
        VariantKindV::Record(fields) => SchemaV::Object {
            properties: seq![
                (tag, SchemaV::Const { value: v.name }),
                (
                    content,
                    SchemaV::Object {
                        properties: props_of(fields),
                        required: field_names(fields),
                    },
                ),
            ],
            required: seq![tag, content],
        },
    }
}

pub open spec fn alts_of(variants: Seq<VariantV>, tag: Seq<u8>, content: Seq<u8>) -> Seq<SchemaV>
    decreases variants,
{
    if variants.len() == 0 {
        Seq::empty()
    } else {
        alts_of(variants.drop_last(), tag, content).push(alt_of(variants.last(), tag, content))
    }
}

pub open spec fn props_of(fields: Seq<FieldV>) -> Seq<(Seq<u8>, SchemaV)>
    decreases fields,
{
    if fields.len() == 0 {
        Seq::empty()
    } else {
        props_of(fields.drop_last()).push(
            (fields.last().serialized_name, schema_of(fields.last().ty)),
        )
    }
}

/// The schema of a primitive leaf.
pub open spec fn prim_schema_of(kind: PrimitiveKind, constraint: Option<ConstraintV>) -> SchemaV {
    match (kind, constraint) {
        (PrimitiveKind::Integer, Option::None) => SchemaV::Integer,
        (PrimitiveKind::Integer, Option::Some(ConstraintV::Range(b))) => SchemaV::IntegerConstrained {
            range: b,
        },
        (PrimitiveKind::Text, Option::None) => SchemaV::Text,
        (PrimitiveKind::Text, Option::Some(ConstraintV::Length(b))) => SchemaV::StringConstrained {
            length: Option::Some(b),
            pattern: Option::None,
        },
        (PrimitiveKind::Text, Option::Some(ConstraintV::Pattern(d))) => SchemaV::StringConstrained {
            length: Option::None,
            pattern: Option::Some(d),
        },
        _ => SchemaV::Text,
    }
}

/// The schema compiler as a mathematical map: a record becomes a closed
/// object requiring every field; a union becomes a flat enumeration when
/// every variant is payload-free, and otherwise one object alternative per
/// variant under the configured or default keys; a primitive becomes its
/// base type with its constraint.
pub open spec fn schema_of(t: TdV) -> SchemaV
    decreases t,
{
    match t {
        TdV::Record { fields } => SchemaV::Object {
            properties: props_of(fields),
            required: field_names(fields),
        },
        TdV::Union { variants, tag_field, content_field } => {
            if all_unit(variants) {
                SchemaV::Enum { values: variant_names(variants) }
            } else {
                match (tag_field, content_field) {
                    (Option::Some(tag), Option::Some(content)) => SchemaV::OneOf {
                        alternatives: alts_of(variants, tag, content),
                    },
                    _ => SchemaV::OneOf {
                        alternatives: alts_of(variants, mixed_tag_key(), mixed_content_key()),
                    },
                }
            }
        },
        TdV::Primitive { kind, constraint } => prim_schema_of(kind, constraint),
    }
}

/// A union in which every variant is payload-free flattens to a plain
/// enumeration of its serialized discriminants, never to a `oneOf`.
pub proof fn lemma_unit_only_union_flattens(t: TdV)
    requires
        t matches TdV::Union { variants, .. } && all_unit(variants),
    ensures
        schema_of(t) == (SchemaV::Enum { values: variant_names(t->Union_variants) }),
{
}

pub proof fn lemma_alts_of_index(variants: Seq<VariantV>, tag: Seq<u8>, content: Seq<u8>)
    ensures
        alts_of(variants, tag, content).len() == variants.len(),
        forall|i: int|
            0 <= i < variants.len() ==> (#[trigger] alts_of(variants, tag, content)[i]) == alt_of(
                variants[i],
                tag,
                content,
            ),
    decreases variants,
{
    if variants.len() > 0 {
        lemma_alts_of_index(variants.drop_last(), tag, content);
        assert forall|i: int| 0 <= i < variants.len() implies (#[trigger] alts_of(
            variants,
            tag,
            content,
        )[i]) == alt_of(variants[i], tag, content) by {
            if i < variants.len() - 1 {
                assert(variants.drop_last()[i] == variants[i]);
                assert(alts_of(variants, tag, content)[i] == alts_of(
                    variants.drop_last(),
                    tag,
                    content,
                )[i]);
            } else {
                assert(variants.last() == variants[i]);
            }
        }
    }
}

pub proof fn lemma_props_of_index(fields: Seq<FieldV>)
    ensures
        props_of(fields).len() == fields.len(),
        forall|i: int|
            0 <= i < fields.len() ==> (#[trigger] props_of(fields)[i]) == (
                fields[i].serialized_name,
                schema_of(fields[i].ty),
            ),
    decreases fields,
{
    if fields.len() > 0 {
        lemma_props_of_index(fields.drop_last());
        assert forall|i: int| 0 <= i < fields.len() implies (#[trigger] props_of(fields)[i]) == (
            fields[i].serialized_name,
            schema_of(fields[i].ty),
        ) by {
            if i < fields.len() - 1 {
                assert(fields.drop_last()[i] == fields[i]);
                assert(props_of(fields)[i] == props_of(fields.drop_last())[i]);
            } else {
                assert(fields.last() == fields[i]);
            }
        }
    }
}

/// Byte-for-byte copy of a name.
fn copy_name(src: &Vec<u8>) -> (r: Vec<u8>)
    ensures
        r@ == src@,
{
    let mut out: Vec<u8> = Vec::new();
    let mut i: usize = 0;
    while i < src.len()
        invariant
            0 <= i <= src.len(),
            out@ == src@.subrange(0, i as int),
        decreases src.len() - i,
    {
        out.push(src[i]);
        assert(out@ =~= src@.subrange(0, i as int + 1));
        i = i + 1;
    }
    proof {
        assert(out@ =~= src@);
    }
    out
}

/// Builds the object schema of one record shape.
fn build_object(fields: &Vec<FieldSpec>) -> (r: SchemaNode)
    ensures
        r@ == (SchemaV::Object {
            properties: props_of(fields_view(fields@)),
            required: field_names(fields_view(fields@)),
        }),
    decreases fields@,
{
    proof {
        lemma_fields_view_index(fields@);
        lemma_props_of_index(fields_view(fields@));
    }
    let ghost fv = fields_view(fields@);
    let mut properties: Vec<(Vec<u8>, SchemaNode)> = Vec::new();
    let mut required: Vec<Vec<u8>> = Vec::new();
    let n = fields.len();
    let mut i: usize = 0;
    while i < n
        invariant
            0 <= i <= n,
            n == fields.len(),
            fv == fields_view(fields@),
            fv.len() == n,
            forall|k: int| 0 <= k < fields@.len() ==> fv[k] == crate::desc::field_view(
                #[trigger] fields@[k],
            ),
            properties@.len() == i,
            required@.len() == i,
            forall|k: int|
                0 <= k < i ==> ((#[trigger] properties@[k]).0@, schema_view(properties@[k].1))
                    == (fv[k].serialized_name, schema_of(fv[k].ty)),
            forall|k: int| 0 <= k < i ==> (#[trigger] required@[k])@ == fv[k].serialized_name,
        decreases n - i,
    {
        let name = copy_name(&fields[i].serialized_name);
        let child = build_schema(&fields[i].ty);
        properties.push((name, child));
        required.push(copy_name(&fields[i].serialized_name));
        i = i + 1;
    }
    let r = SchemaNode::Object { properties, required };
    proof {
        lemma_props_view_index(r->Object_properties@);
        assert(props_view(r->Object_properties@) =~~= props_of(fv));
        assert(r->Object_required@.map_values(|nm: Vec<u8>| nm@) =~~= field_names(fv));
    }
    r
}

/// Builds the schema alternative of one union variant under the given keys.
fn build_alt(v: &VariantSpec, tag: &Vec<u8>, content: &Vec<u8>) -> (r: SchemaNode)
    ensures
        r@ == alt_of(crate::desc::variant_view(*v), tag@, content@),
    decreases *v,
{
    let tag_prop = (copy_name(tag), SchemaNode::Const { value: copy_name(&v.name) });
    match &v.kind {
        VariantKind::Unit => {
            let mut properties: Vec<(Vec<u8>, SchemaNode)> = Vec::new();
            let mut required: Vec<Vec<u8>> = Vec::new();
            properties.push(tag_prop);
            required.push(copy_name(tag));
            let r = SchemaNode::Object { properties, required };
            proof {
                lemma_props_view_index(r->Object_properties@);
                assert(props_view(r->Object_properties@) =~~= seq![
                    (tag@, SchemaV::Const { value: v.name@ }),
                ]);
                assert(r->Object_required@.map_values(|nm: Vec<u8>| nm@) =~~= seq![tag@]);
            }
            r
        },
        VariantKind::Tuple(t) => {
            let inner = build_schema(t);
            let mut properties: Vec<(Vec<u8>, SchemaNode)> = Vec::new();
            let mut required: Vec<Vec<u8>> = Vec::new();
            properties.push(tag_prop);
            properties.push((copy_name(content), inner));
            required.push(copy_name(tag));
            required.push(copy_name(content));
            let r = SchemaNode::Object { properties, required };
            proof {
                lemma_props_view_index(r->Object_properties@);
                assert(props_view(r->Object_properties@) =~~= seq![
                    (tag@, SchemaV::Const { value: v.name@ }),
                    (content@, schema_of(td_view(*(*t)))),
                ]);
                assert(r->Object_required@.map_values(|nm: Vec<u8>| nm@) =~~= seq![tag@, content@]);
            }
            r
        },
        VariantKind::Record(fields) => {
            let inner = build_object(fields);
            let mut properties: Vec<(Vec<u8>, SchemaNode)> = Vec::new();
            let mut required: Vec<Vec<u8>> = Vec::new();
            properties.push(tag_prop);
            properties.push((copy_name(content), inner));
            required.push(copy_name(tag));
            required.push(copy_name(content));
            let r = SchemaNode::Object { properties, required };
            proof {
                lemma_props_view_index(r->Object_properties@);
                assert(props_view(r->Object_properties@) =~~= seq![
                    (tag@, SchemaV::Const { value: v.name@ }),
                    (
                        content@,
                        SchemaV::Object {
                            properties: props_of(fields_view(fields@)),
                            required: field_names(fields_view(fields@)),
                        },
                    ),
                ]);
                assert(r->Object_required@.map_values(|nm: Vec<u8>| nm@) =~~= seq![tag@, content@]);
            }
            r
        },
    }
}

/// Builds the schema of a type description. Never fails; callers validate
/// first.
#[verifier::loop_isolation(false)]
pub(crate) fn build_schema(td: &TypeDescription) -> (r: SchemaNode)
    ensures
        r@ == schema_of(td@),
    decreases *td,
{
    match td {
        TypeDescription::Record { fields } => {
            let r = build_object(fields);
            proof {
                assert(td@ matches TdV::Record { fields: fv } && fv == fields_view(fields@));
            }
            r
        },
        TypeDescription::Union { variants, tag_field, content_field } => {
            proof {
                lemma_variants_view_index(variants@);
                assert(td@ matches TdV::Union { variants: vv, .. } && vv == variants_view(
                    variants@,
                ));
            }
            let ghost vv = variants_view(variants@);
            let n = variants.len();
            let mut unit_only = true;
            let mut i: usize = 0;
            while i < n
                invariant
                    0 <= i <= n,
                    n == variants.len(),
                    vv == variants_view(variants@),
                    vv.len() == n,
                    forall|k: int| 0 <= k < variants@.len() ==> vv[k] == crate::desc::variant_view(
                        #[trigger] variants@[k],
                    ),
                    unit_only == (forall|k: int| 0 <= k < i ==> (#[trigger] vv[k].kind) is Unit),
                decreases n - i,
            {
                if !matches!(&variants[i].kind, VariantKind::Unit) {
                    assert(!(vv[i as int].kind is Unit));
                    unit_only = false;
                }
                i = i + 1;
            }
            if unit_only {
                let mut values: Vec<Vec<u8>> = Vec::new();
                let mut k: usize = 0;
                while k < n
                    invariant
                        0 <= k <= n,
                        n == variants.len(),
                        vv == variants_view(variants@),
                        vv.len() == n,
                        forall|j: int| 0 <= j < variants@.len() ==> vv[j]
                            == crate::desc::variant_view(#[trigger] variants@[j]),
                        values@.len() == k,
                        forall|j: int| 0 <= j < k ==> (#[trigger] values@[j])@ == vv[j].name,
                    decreases n - k,
                {
                    values.push(copy_name(&variants[k].name));
                    k = k + 1;
                }
                let r = SchemaNode::Enum { values };
                proof {
                    assert(r->Enum_values@.map_values(|nm: Vec<u8>| nm@) =~= variant_names(vv));
                }
                r
            } else {
                let (tag, content): (&Vec<u8>, &Vec<u8>) = match (tag_field, content_field) {
                    (Option::Some(t), Option::Some(c)) => (t, c),
                    _ => (&mixed_tag_vec(), &mixed_content_vec()),
                };
                proof {
                    lemma_alts_of_index(vv, tag@, content@);
                }
                let mut alternatives: Vec<SchemaNode> = Vec::new();
                let mut k: usize = 0;
                while k < n
                    invariant
                        0 <= k <= n,
                        n == variants.len(),
                        vv == variants_view(variants@),
                        vv.len() == n,
                        forall|j: int| 0 <= j < variants@.len() ==> vv[j]
                            == crate::desc::variant_view(#[trigger] variants@[j]),
                        alternatives@.len() == k,
                        forall|j: int| 0 <= j < k ==> schema_view(#[trigger] alternatives@[j])
                            == alt_of(vv[j], tag@, content@),
                    decreases n - k,
                {
                    proof {
                        vstd::seq::axiom_seq_index_decreases(variants@, k as int);
                        assert(decreases_to!(*td => (*td)->Union_variants));
                        assert(decreases_to!(*td => variants@[k as int]));
                    }
                    let alt = build_alt(&variants[k], tag, content);
                    alternatives.push(alt);
                    k = k + 1;
                }
                let r = SchemaNode::OneOf { alternatives };
                proof {
                    lemma_alts_view_index(r->OneOf_alternatives@);
                    lemma_alts_of_index(vv, tag@, content@);
                    assert(alts_view(r->OneOf_alternatives@) =~~= alts_of(vv, tag@, content@));
                }
                r
            }
        },
        TypeDescription::Primitive { kind, constraint } => {
            proof {
                assert(td@ matches TdV::Primitive { kind: k, constraint: cv } && k == *kind
                    && cv == match constraint {
                        Option::Some(c) => Option::Some(c@),
                        Option::None => Option::None,
                    });
            }
            match (kind, constraint) {
                (PrimitiveKind::Integer, Option::None) => SchemaNode::Integer,
                (PrimitiveKind::Integer, Option::Some(Constraint::Range(b))) => {
                    SchemaNode::IntegerConstrained { range: *b }
                },
                (PrimitiveKind::Text, Option::None) => SchemaNode::Text,
                (PrimitiveKind::Text, Option::Some(Constraint::Length(b))) => {
                    SchemaNode::StringConstrained { length: Option::Some(*b), pattern: Option::None }
                },
                (PrimitiveKind::Text, Option::Some(Constraint::Pattern(d))) => {
                    SchemaNode::StringConstrained {
                        length: Option::None,
                        pattern: Option::Some(dfa_copy(d)),
                    }
                },
                _ => SchemaNode::Text,
            }
        },
    }
}

/// The bytes of the default discriminant key.
pub(crate) fn mixed_tag_vec() -> (r: Vec<u8>)
    ensures
        r@ == mixed_tag_key(),
{
    let mut out: Vec<u8> = Vec::new();
    out.push(116u8);
    out.push(121u8);
    out.push(112u8);
    out.push(101u8);
    proof {
        assert(out@ =~= mixed_tag_key());
    }
    out
}

/// The bytes of the default payload key.
pub(crate) fn mixed_content_vec() -> (r: Vec<u8>)
    ensures
        r@ == mixed_content_key(),
{
    let mut out: Vec<u8> = Vec::new();
    out.push(100u8);
    out.push(97u8);
    out.push(116u8);
    out.push(97u8);
    proof {
        assert(out@ =~= mixed_content_key());
    }
    out
}

/// Structure-preserving copy of a pattern automaton.
pub(crate) fn dfa_copy(d: &Dfa) -> (r: Dfa)
    ensures
        r@ == d@,
{
    let mut accepting: Vec<bool> = Vec::new();
    let mut i: usize = 0;
    while i < d.accepting.len()
        invariant
            0 <= i <= d.accepting.len(),
            accepting@ == d.accepting@.subrange(0, i as int),
        decreases d.accepting.len() - i,
    {
        accepting.push(d.accepting[i]);
        assert(accepting@ =~= d.accepting@.subrange(0, i as int + 1));
        i = i + 1;
    }
    assert(accepting@ =~= d.accepting@);
    let mut delta: Vec<Vec<usize>> = Vec::new();
    let mut k: usize = 0;
    while k < d.delta.len()
        invariant
            0 <= k <= d.delta.len(),
            delta@.len() == k,
            forall|j: int| 0 <= j < k ==> (#[trigger] delta@[j])@ == d.delta@[j]@,
        decreases d.delta.len() - k,
    {
        let row = &d.delta[k];
        let mut new_row: Vec<usize> = Vec::new();
        let mut j: usize = 0;
        while j < row.len()
            invariant
                0 <= j <= row.len(),
                new_row@ == row@.subrange(0, j as int),
            decreases row.len() - j,
        {
            new_row.push(row[j]);
            assert(new_row@ =~= row@.subrange(0, j as int + 1));
            j = j + 1;
        }
        assert(new_row@ =~= row@);
        delta.push(new_row);
        k = k + 1;
    }
    let r = Dfa { start: d.start, accepting, delta };
    proof {
        assert(r@.delta =~= d@.delta);
        assert(r@ == d@);
    }
    r
}

/// Compiles a type description into its schema model. Fails exactly on
/// malformed descriptions; on a well-formed description the result is the
/// mathematical schema `schema_of`.
pub fn compile_schema(td: &TypeDescription) -> (r: Result<SchemaNode, MalformedSpec>)
    ensures
        r is Ok <==> wf_td(td@),
        r matches Ok(s) ==> s@ == schema_of(td@),
{
    match validate(td) {
        Result::Err(e) => Result::Err(e),
        Result::Ok(()) => Result::Ok(build_schema(td)),
    }
}

} // verus!
