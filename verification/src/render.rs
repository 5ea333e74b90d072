//! Rendering of a schema model into the schema document: a compact textual
//! form with `type`/`properties`/`required`/`additionalProperties` keys for
//! objects, `oneOf` for unions, and `enum` for payload-free unions. The spec
//! function `doc_bytes` states the exact document, byte for byte.

use vstd::prelude::*;

use crate::schema::SchemaNode;
use crate::schema::SchemaV;

verus! {

/// A name framed in double quotes.
pub open spec fn quoted(name: Seq<u8>) -> Seq<u8> {
    seq![34u8] + name + seq![34u8]
}

pub open spec fn obj_head() -> Seq<u8> {
    seq![
        123u8, 34u8, 116u8, 121u8, 112u8, 101u8, 34u8, 58u8, 34u8, 111u8, 98u8, 106u8, 101u8, 99u8, 116u8,
        34u8, 44u8, 34u8, 112u8, 114u8, 111u8, 112u8, 101u8, 114u8, 116u8, 105u8, 101u8, 115u8, 34u8, 58u8,
        123u8,
    ]
}

pub open spec fn obj_mid() -> Seq<u8> {
    seq![125u8, 44u8, 34u8, 114u8, 101u8, 113u8, 117u8, 105u8, 114u8, 101u8, 100u8, 34u8, 58u8, 91u8]
}

pub open spec fn obj_tail() -> Seq<u8> {
    seq![
        93u8, 44u8, 34u8, 97u8, 100u8, 100u8, 105u8, 116u8, 105u8, 111u8, 110u8, 97u8, 108u8, 80u8, 114u8,
        111u8, 112u8, 101u8, 114u8, 116u8, 105u8, 101u8, 115u8, 34u8, 58u8, 102u8, 97u8, 108u8, 115u8, 101u8,
        125u8,
    ]
}

pub open spec fn oneof_head() -> Seq<u8> {
    seq![123u8, 34u8, 111u8, 110u8, 101u8, 79u8, 102u8, 34u8, 58u8, 91u8]
}

pub open spec fn enum_head() -> Seq<u8> {
    seq![123u8, 34u8, 101u8, 110u8, 117u8, 109u8, 34u8, 58u8, 91u8]
}

pub open spec fn const_head() -> Seq<u8> {
    seq![123u8, 34u8, 99u8, 111u8, 110u8, 115u8, 116u8, 34u8, 58u8]
}

pub open spec fn type_integer_doc() -> Seq<u8> {
    seq![
        123u8, 34u8, 116u8, 121u8, 112u8, 101u8, 34u8, 58u8, 34u8, 105u8, 110u8, 116u8, 101u8, 103u8, 101u8,
        114u8, 34u8, 125u8,
    ]
}

pub open spec fn type_string_doc() -> Seq<u8> {
    seq![
        123u8, 34u8, 116u8, 121u8, 112u8, 101u8, 34u8, 58u8, 34u8, 115u8, 116u8, 114u8, 105u8, 110u8, 103u8,
        34u8, 125u8,
    ]
}

pub open spec fn arr_head() -> Seq<u8> {
    seq![
        123u8, 34u8, 116u8, 121u8, 112u8, 101u8, 34u8, 58u8, 34u8, 97u8, 114u8, 114u8, 97u8, 121u8, 34u8,
        44u8, 34u8, 105u8, 116u8, 101u8, 109u8, 115u8, 34u8, 58u8,
    ]
}

/// One rendered property: a quoted key, a colon, the child document.
pub open spec fn prop_doc(p: (Seq<u8>, SchemaV)) -> Seq<u8>
    decreases p,
{
    quoted(p.0) + seq![58u8] + doc_bytes(p.1)
}

/// Comma-joined rendered properties.
pub open spec fn props_doc(ps: Seq<(Seq<u8>, SchemaV)>) -> Seq<u8>
    decreases ps,
{
    if ps.len() == 0 {
        Seq::empty()
    } else if ps.len() == 1 {
        prop_doc(ps[0])
    } else {
        props_doc(ps.drop_last()) + seq![44u8] + prop_doc(ps.last())
    }
}

/// Comma-joined quoted names.
pub open spec fn names_doc(ns: Seq<Seq<u8>>) -> Seq<u8>
    decreases ns,
{
    if ns.len() == 0 {
        Seq::empty()
    } else if ns.len() == 1 {
        quoted(ns[0])
    } else {
        names_doc(ns.drop_last()) + seq![44u8] + quoted(ns.last())
    }
}

/// Comma-joined rendered alternatives.
pub open spec fn alts_doc(alts: Seq<SchemaV>) -> Seq<u8>
    decreases alts,
{
    if alts.len() == 0 {
        Seq::empty()
    } else if alts.len() == 1 {
        doc_bytes(alts[0])
    } else {
        alts_doc(alts.drop_last()) + seq![44u8] + doc_bytes(alts.last())
    }
}

/// The schema document of a schema model, byte for byte. Constraints beyond
/// the base type are compiler-internal and do not appear in the document.
pub open spec fn doc_bytes(s: SchemaV) -> Seq<u8>
    decreases s,
{
    match s {
        SchemaV::Object { properties, required } => obj_head() + props_doc(properties) + obj_mid()
            + names_doc(required) + obj_tail(),
        SchemaV::OneOf { alternatives } => oneof_head() + alts_doc(alternatives) + seq![93u8, 125u8],
        SchemaV::Enum { values } => enum_head() + names_doc(values) + seq![93u8, 125u8],
        SchemaV::Const { value } => const_head() + quoted(value) + seq![125u8],
        SchemaV::IntegerConstrained { .. } => type_integer_doc(),
        SchemaV::Integer => type_integer_doc(),
        SchemaV::StringConstrained { .. } => type_string_doc(),
        SchemaV::Text => type_string_doc(),
        SchemaV::Array { item } => arr_head() + doc_bytes(*item) + seq![125u8],
    }
}

/// Appends a quoted name.
fn push_quoted(out: &mut Vec<u8>, name: &Vec<u8>)
    ensures
        final(out)@ == old(out)@ + quoted(name@),
{
    out.push(34u8);
    let mut i: usize = 0;
    while i < name.len()
        invariant
            0 <= i <= name.len(),
            out@ == old(out)@ + seq![34u8] + name@.subrange(0, i as int),
        decreases name.len() - i,
    {
        out.push(name[i]);
        assert(out@ =~= old(out)@ + seq![34u8] + name@.subrange(0, i as int + 1));
        i = i + 1;
    }
    out.push(34u8);
    proof {
        assert(name@.subrange(0, name@.len() as int) =~= name@);
        assert(out@ =~= old(out)@ + quoted(name@));
    }
}

/// Appends the schema document of the given node.
#[verifier::loop_isolation(false)]
pub fn render(s: &SchemaNode, out: &mut Vec<u8>)
    ensures
        final(out)@ == old(out)@ + doc_bytes(s@),
    decreases *s,
{
    match s {
        SchemaNode::Object { properties, required } => {
            proof {
                crate::schema::lemma_props_view_index(properties@);
            }
            let ghost pv = crate::schema::props_view(properties@);
            push_obj_head(out);
            let n = properties.len();
            let mut i: usize = 0;
            while i < n
                invariant
                    0 <= i <= n,
                    out@ == old(out)@ + obj_head() + props_doc(pv.subrange(0, i as int)),
                decreases n - i,
            {
                if i > 0 {
                    out.push(44u8);
                }
                push_quoted(out, &properties[i].0);
                out.push(58u8);
                proof {
                    vstd::seq::axiom_seq_index_decreases(properties@, i as int);
                    assert(decreases_to!(*s => (*s)->Object_properties));
                    assert(decreases_to!(*s => properties@[i as int]));
                }
                render(&properties[i].1, out);
                proof {
                    assert(pv.subrange(0, i as int + 1).drop_last() =~= pv.subrange(0, i as int));
                    assert(pv.subrange(0, i as int + 1).last() == pv[i as int]);
                    assert(prop_doc(pv[i as int]) == quoted(properties@[i as int].0@) + seq![58u8]
                        + doc_bytes(properties@[i as int].1@));
                    assert(out@ =~= old(out)@ + obj_head() + props_doc(
                        pv.subrange(0, i as int + 1),
                    ));
                }
                i = i + 1;
            }
            proof {
                assert(pv.subrange(0, pv.len() as int) =~= pv);
            }
            push_obj_mid(out);
            let m = required.len();
            let ghost rv = required@.map_values(|nm: Vec<u8>| nm@);
            let mut k: usize = 0;
            while k < m
                invariant
                    0 <= k <= m,
                    out@ == old(out)@ + obj_head() + props_doc(pv) + obj_mid() + names_doc(
                        rv.subrange(0, k as int),
                    ),
                decreases m - k,
            {
                if k > 0 {
                    out.push(44u8);
                }
                push_quoted(out, &required[k]);
                proof {
                    assert(rv.subrange(0, k as int + 1).drop_last() =~= rv.subrange(0, k as int));
                    assert(rv.subrange(0, k as int + 1).last() == rv[k as int]);
                    assert(rv[k as int] == required@[k as int]@);
                    assert(out@ =~= old(out)@ + obj_head() + props_doc(pv) + obj_mid() + names_doc(
                        rv.subrange(0, k as int + 1),
                    ));
                }
                k = k + 1;
            }
            proof {
                assert(rv.subrange(0, rv.len() as int) =~= rv);
            }
            push_obj_tail(out);
            proof {
                assert(out@ =~= old(out)@ + doc_bytes(s@));
            }
        },
        SchemaNode::OneOf { alternatives } => {
            proof {
                crate::schema::lemma_alts_view_index(alternatives@);
            }
            let ghost av = crate::schema::alts_view(alternatives@);
            push_oneof_head(out);
            let n = alternatives.len();
            let mut i: usize = 0;
            while i < n
                invariant
                    0 <= i <= n,
                    out@ == old(out)@ + oneof_head() + alts_doc(av.subrange(0, i as int)),
                decreases n - i,
            {
                if i > 0 {
                    out.push(44u8);
                }
                proof {
                    vstd::seq::axiom_seq_index_decreases(alternatives@, i as int);
                    assert(decreases_to!(*s => (*s)->OneOf_alternatives));
                    assert(decreases_to!(*s => alternatives@[i as int]));
                }
                render(&alternatives[i], out);
                proof {
                    assert(av.subrange(0, i as int + 1).drop_last() =~= av.subrange(0, i as int));
                    assert(av.subrange(0, i as int + 1).last() == av[i as int]);
                    assert(out@ =~= old(out)@ + oneof_head() + alts_doc(
                        av.subrange(0, i as int + 1),
                    ));
                }
                i = i + 1;
            }
            proof {
                assert(av.subrange(0, av.len() as int) =~= av);
            }
            out.push(93u8);
            out.push(125u8);
            proof {
                assert(out@ =~= old(out)@ + doc_bytes(s@));
            }
        },
        SchemaNode::Enum { values } => {
            push_enum_head(out);
            let ghost nv = values@.map_values(|nm: Vec<u8>| nm@);
            let n = values.len();
            let mut i: usize = 0;
            while i < n
                invariant
                    0 <= i <= n,
                    out@ == old(out)@ + enum_head() + names_doc(nv.subrange(0, i as int)),
                decreases n - i,
            {
                if i > 0 {
                    out.push(44u8);
                }
                push_quoted(out, &values[i]);
                proof {
                    assert(nv.subrange(0, i as int + 1).drop_last() =~= nv.subrange(0, i as int));
                    assert(nv.subrange(0, i as int + 1).last() == nv[i as int]);
                    assert(nv[i as int] == values@[i as int]@);
                    assert(out@ =~= old(out)@ + enum_head() + names_doc(
                        nv.subrange(0, i as int + 1),
                    ));
                }
                i = i + 1;
            }
            proof {
                assert(nv.subrange(0, nv.len() as int) =~= nv);
            }
            out.push(93u8);
            out.push(125u8);
            proof {
                assert(out@ =~= old(out)@ + doc_bytes(s@));
            }
        },
        SchemaNode::Const { value } => {
            push_const_head(out);
            push_quoted(out, value);
            out.push(125u8);
            proof {
                assert(out@ =~= old(out)@ + doc_bytes(s@));
            }
        },
        SchemaNode::IntegerConstrained { .. } => {
            push_type_integer(out);
        },
        SchemaNode::Integer => {
            push_type_integer(out);
        },
        SchemaNode::StringConstrained { .. } => {
            push_type_string(out);
        },
        SchemaNode::Text => {
            push_type_string(out);
        },
        SchemaNode::Array { item } => {
            push_arr_head(out);
            render(item, out);
            out.push(125u8);
            proof {
                assert(out@ =~= old(out)@ + doc_bytes(s@));
            }
        },
    }
}

/// Renders the complete schema document of a schema model.
pub fn schema_document(s: &SchemaNode) -> (r: Vec<u8>)
    ensures
        r@ == doc_bytes(s@),
{
    let mut out: Vec<u8> = Vec::new();
    render(s, &mut out);
    proof {
        assert(out@ =~= doc_bytes(s@));
    }
    out
}

fn push_obj_head(out: &mut Vec<u8>)
    ensures
        final(out)@ == old(out)@ + obj_head(),
{
    out.push(123u8);
    out.push(34u8);
    out.push(116u8);
    out.push(121u8);
    out.push(112u8);
    out.push(101u8);
    out.push(34u8);
    out.push(58u8);
    out.push(34u8);
    out.push(111u8);
    out.push(98u8);
    out.push(106u8);
    out.push(101u8);
    out.push(99u8);
    out.push(116u8);
    out.push(34u8);
    out.push(44u8);
    out.push(34u8);
    out.push(112u8);
    out.push(114u8);
    out.push(111u8);
    out.push(112u8);
    out.push(101u8);
    out.push(114u8);
    out.push(116u8);
    out.push(105u8);
    out.push(101u8);
    out.push(115u8);
    out.push(34u8);
    out.push(58u8);
    out.push(123u8);
    proof {
        assert(out@ =~= old(out)@ + obj_head());
    }
}

fn push_obj_mid(out: &mut Vec<u8>)
    ensures
        final(out)@ == old(out)@ + obj_mid(),
{
    out.push(125u8);
    out.push(44u8);
    out.push(34u8);
    out.push(114u8);
    out.push(101u8);
    out.push(113u8);
    out.push(117u8);
    out.push(105u8);
    out.push(114u8);
    out.push(101u8);
    out.push(100u8);
    out.push(34u8);
    out.push(58u8);
    out.push(91u8);
    proof {
        assert(out@ =~= old(out)@ + obj_mid());
    }
}

fn push_obj_tail(out: &mut Vec<u8>)
    ensures
        final(out)@ == old(out)@ + obj_tail(),
{
    out.push(93u8);
    out.push(44u8);
    out.push(34u8);
    out.push(97u8);
    out.push(100u8);
    out.push(100u8);
    out.push(105u8);
    out.push(116u8);
    out.push(105u8);
    out.push(111u8);
    out.push(110u8);
    out.push(97u8);
    out.push(108u8);
    out.push(80u8);
    out.push(114u8);
    out.push(111u8);
    out.push(112u8);
    out.push(101u8);
    out.push(114u8);
    out.push(116u8);
    out.push(105u8);
    out.push(101u8);
    out.push(115u8);
    out.push(34u8);
    out.push(58u8);
    out.push(102u8);
    out.push(97u8);
    out.push(108u8);
    out.push(115u8);
    out.push(101u8);
    out.push(125u8);
    proof {
        assert(out@ =~= old(out)@ + obj_tail());
    }
}

fn push_oneof_head(out: &mut Vec<u8>)
    ensures
        final(out)@ == old(out)@ + oneof_head(),
{
    out.push(123u8);
    out.push(34u8);
    out.push(111u8);
    out.push(110u8);
    out.push(101u8);
    out.push(79u8);
    out.push(102u8);
    out.push(34u8);
    out.push(58u8);
    out.push(91u8);
    proof {
        assert(out@ =~= old(out)@ + oneof_head());
    }
}

fn push_enum_head(out: &mut Vec<u8>)
    ensures
        final(out)@ == old(out)@ + enum_head(),
{
    out.push(123u8);
    out.push(34u8);
    out.push(101u8);
    out.push(110u8);
    out.push(117u8);
    out.push(109u8);
    out.push(34u8);
    out.push(58u8);
    out.push(91u8);
    proof {
        assert(out@ =~= old(out)@ + enum_head());
    }
}

fn push_const_head(out: &mut Vec<u8>)
    ensures
        final(out)@ == old(out)@ + const_head(),
{
    out.push(123u8);
    out.push(34u8);
    out.push(99u8);
    out.push(111u8);
    out.push(110u8);
    out.push(115u8);
    out.push(116u8);
    out.push(34u8);
    out.push(58u8);
    proof {
        assert(out@ =~= old(out)@ + const_head());
    }
}

fn push_type_integer(out: &mut Vec<u8>)
    ensures
        final(out)@ == old(out)@ + type_integer_doc(),
{
    out.push(123u8);
    out.push(34u8);
    out.push(116u8);
    out.push(121u8);
    out.push(112u8);
    out.push(101u8);
    out.push(34u8);
    out.push(58u8);
    out.push(34u8);
    out.push(105u8);
    out.push(110u8);
    out.push(116u8);
    out.push(101u8);
    out.push(103u8);
    out.push(101u8);
    out.push(114u8);
    out.push(34u8);
    out.push(125u8);
    proof {
        assert(out@ =~= old(out)@ + type_integer_doc());
    }
}

fn push_type_string(out: &mut Vec<u8>)
    ensures
        final(out)@ == old(out)@ + type_string_doc(),
{
    out.push(123u8);
    out.push(34u8);
    out.push(116u8);
    out.push(121u8);
    out.push(112u8);
    out.push(101u8);
    out.push(34u8);
    out.push(58u8);
    out.push(34u8);
    out.push(115u8);
    out.push(116u8);
    out.push(114u8);
    out.push(105u8);
    out.push(110u8);
    out.push(103u8);
    out.push(34u8);
    out.push(125u8);
    proof {
        assert(out@ =~= old(out)@ + type_string_doc());
    }
}

fn push_arr_head(out: &mut Vec<u8>)
    ensures
        final(out)@ == old(out)@ + arr_head(),
{
    out.push(123u8);
    out.push(34u8);
    out.push(116u8);
    out.push(121u8);
    out.push(112u8);
    out.push(101u8);
    out.push(34u8);
    out.push(58u8);
    out.push(34u8);
    out.push(97u8);
    out.push(114u8);
    out.push(114u8);
    out.push(97u8);
    out.push(121u8);
    out.push(34u8);
    out.push(44u8);
    out.push(34u8);
    out.push(105u8);
    out.push(116u8);
    out.push(101u8);
    out.push(109u8);
    out.push(115u8);
    out.push(34u8);
    out.push(58u8);
    proof {
        assert(out@ =~= old(out)@ + arr_head());
    }
}

} // verus!
