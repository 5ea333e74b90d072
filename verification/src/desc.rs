//! The compile-time input of the library: a `TypeDescription` names a shape
//! (record, union, or constrained primitive), and validation decides once,
//! before any schema or parser is built, whether the description is well
//! formed.

use vstd::prelude::*;

verus! {

/// Inclusive bounds, used both for integer ranges and for string lengths.
#[derive(Clone, Copy, PartialEq, Eq, Structural, Debug)]
pub struct Bounds {
    pub min: u64,
    pub max: u64,
}

/// A deterministic finite automaton over bytes, the compiled form of a
/// string pattern. `delta[s][b]` is the successor of state `s` on byte `b`;
/// the value `accepting.len()` marks a missing transition.
#[derive(Clone, Debug)]
pub struct Dfa {
    pub start: usize,
    pub accepting: Vec<bool>,
    pub delta: Vec<Vec<usize>>,
}

/// Mathematical model of a `Dfa`.
pub struct DfaV {
    pub start: int,
    pub accepting: Seq<bool>,
    pub delta: Seq<Seq<usize>>,
}

impl View for Dfa {
    type V = DfaV;

    open spec fn view(&self) -> DfaV {
        DfaV {
            start: self.start as int,
            accepting: self.accepting@,
            delta: Seq::new(self.delta@.len() as nat, |i: int| self.delta@[i]@),
        }
    }
}

impl DfaV {
    /// Number of automaton states.
    pub open spec fn states(self) -> int {
        self.accepting.len() as int
    }

    /// A pattern automaton is well formed when the table covers every state
    /// with one row of 256 entries, each entry naming a state or the
    /// out-of-range marker `states()`.
    pub open spec fn wf(self) -> bool {
        &&& self.delta.len() == self.states()
        &&& 0 <= self.start < self.states()
        &&& forall|i: int| 0 <= i < self.states() ==> (#[trigger] self.delta[i]).len() == 256
        &&& forall|i: int, j: int|
            0 <= i < self.states() && 0 <= j < 256 ==> #[trigger] self.delta[i][j] <= self.states()
    }
}

/// Why a `TypeDescription` was rejected at compile time.
#[derive(Clone, Copy, PartialEq, Eq, Structural, Debug)]
pub enum MalformedSpec {
    /// Two fields of one record shape serialize under the same name.
    DuplicateFieldName,
    /// Two variants of one union serialize under the same discriminant.
    DuplicateVariantName,
    /// A range or length constraint with `min > max`.
    InvertedBounds,
    /// A pattern automaton whose table is malformed.
    InvalidPattern,
    /// A range constraint on a string, or a length or pattern constraint on
    /// an integer.
    MismatchedConstraint,
    /// Only one of the tag field and the content field was given, or both
    /// name the same key.
    MismatchedTagging,
    /// A name holding a quote or backslash byte, which could not be framed
    /// inside the serialized form.
    UnquotableName,
}

/// The base shape of a primitive leaf.
#[derive(Clone, Copy, PartialEq, Eq, Structural, Debug)]
pub enum PrimitiveKind {
    Integer,
    Text,
}

/// A leaf validator attached to a primitive.
#[derive(Clone, Debug)]
pub enum Constraint {
    /// Inclusive bounds on an integer value.
    Range(Bounds),
    /// Inclusive bounds on a string's byte count.
    Length(Bounds),
    /// Regular-language membership of the string body, as a compiled
    /// automaton; `compile_pattern` builds one from a pattern expression.
    Pattern(Dfa),
}

/// Mathematical model of a `Constraint`.
pub enum ConstraintV {
    Range(Bounds),
    Length(Bounds),
    Pattern(DfaV),
}

impl View for Constraint {
    type V = ConstraintV;

    open spec fn view(&self) -> ConstraintV {
        match self {
            Constraint::Range(b) => ConstraintV::Range(*b),
            Constraint::Length(b) => ConstraintV::Length(*b),
            Constraint::Pattern(d) => ConstraintV::Pattern(d@),
        }
    }
}

/// One field of a record shape. `serialized_name` is the key that appears on
/// the wire; it defaults to the declared name and a rename overrides it.
#[derive(Debug)]
pub struct FieldSpec {
    pub declared_name: Vec<u8>,
    pub serialized_name: Vec<u8>,
    pub ty: TypeDescription,
}

/// The payload shape of one union variant.
#[derive(Debug)]
pub enum VariantKind {
    Unit,
    Tuple(Box<TypeDescription>),
    Record(Vec<FieldSpec>),
}

/// One union variant with its serialized discriminant.
#[derive(Debug)]
pub struct VariantSpec {
    pub name: Vec<u8>,
    pub kind: VariantKind,
}

/// The compile-time description of a type, the single source of truth from
/// which both the schema document and the incremental parser are built.
#[derive(Debug)]
pub enum TypeDescription {
    Record { fields: Vec<FieldSpec> },
    Union {
        variants: Vec<VariantSpec>,
        tag_field: Option<Vec<u8>>,
        content_field: Option<Vec<u8>>,
    },
    Primitive { kind: PrimitiveKind, constraint: Option<Constraint> },
}

/// Mathematical model of a `FieldSpec`.
pub struct FieldV {
    pub declared_name: Seq<u8>,
    pub serialized_name: Seq<u8>,
    pub ty: TdV,
}

/// Mathematical model of a `VariantKind`.
pub enum VariantKindV {
    Unit,
    Tuple(Box<TdV>),
    Record(Seq<FieldV>),
}

/// Mathematical model of a `VariantSpec`.
pub struct VariantV {
    pub name: Seq<u8>,
    pub kind: VariantKindV,
}

/// Mathematical model of a `TypeDescription`.
pub enum TdV {
    Record { fields: Seq<FieldV> },
    Union {
        variants: Seq<VariantV>,
        tag_field: Option<Seq<u8>>,
        content_field: Option<Seq<u8>>,
    },
    Primitive { kind: PrimitiveKind, constraint: Option<ConstraintV> },
}

pub open spec fn fields_view(fields: Seq<FieldSpec>) -> Seq<FieldV>
    decreases fields,
{
    if fields.len() == 0 {
        Seq::empty()
    } else {
        fields_view(fields.drop_last()).push(field_view(fields.last()))
    }
}

pub open spec fn field_view(f: FieldSpec) -> FieldV
    decreases f,
{
    FieldV {
        declared_name: f.declared_name@,
        serialized_name: f.serialized_name@,
        ty: td_view(f.ty),
    }
}

pub open spec fn variants_view(variants: Seq<VariantSpec>) -> Seq<VariantV>
    decreases variants,
{
    if variants.len() == 0 {
        Seq::empty()
    } else {
        variants_view(variants.drop_last()).push(variant_view(variants.last()))
    }
}

pub open spec fn variant_view(v: VariantSpec) -> VariantV
    decreases v,
{
    VariantV {
        name: v.name@,
        kind: match v.kind {
            VariantKind::Unit => VariantKindV::Unit,
            VariantKind::Tuple(t) => VariantKindV::Tuple(Box::new(td_view(*t))),
            VariantKind::Record(fields) => VariantKindV::Record(fields_view(fields@)),
        },
    }
}

pub open spec fn td_view(td: TypeDescription) -> TdV
    decreases td,
{
    match td {
        TypeDescription::Record { fields } => TdV::Record { fields: fields_view(fields@) },
        TypeDescription::Union { variants, tag_field, content_field } => TdV::Union {
            variants: variants_view(variants@),
            tag_field: match tag_field {
                Option::Some(n) => Option::Some(n@),
                Option::None => Option::None,
            },
            content_field: match content_field {
                Option::Some(n) => Option::Some(n@),
                Option::None => Option::None,
            },
        },
        TypeDescription::Primitive { kind, constraint } => TdV::Primitive {
            kind,
            constraint: match constraint {
                Option::Some(c) => Option::Some(c@),
                Option::None => Option::None,
            },
        },
    }
}

impl View for TypeDescription {
    type V = TdV;

    open spec fn view(&self) -> TdV {
        td_view(*self)
    }
}

impl View for FieldSpec {
    type V = FieldV;

    open spec fn view(&self) -> FieldV {
        field_view(*self)
    }
}

impl View for VariantSpec {
    type V = VariantV;

    open spec fn view(&self) -> VariantV {
        variant_view(*self)
    }
}

/// A name can be framed in quotes: it holds no quote and no backslash byte.
pub open spec fn plain(s: Seq<u8>) -> bool {
    forall|i: int| 0 <= i < s.len() ==> s[i] != 34u8 && s[i] != 92u8
}

/// All names in the sequence differ pairwise.
pub open spec fn names_unique(names: Seq<Seq<u8>>) -> bool {
    forall|i: int, j: int| 0 <= i < j < names.len() ==> names[i] !== names[j]
}

pub open spec fn field_names(fields: Seq<FieldV>) -> Seq<Seq<u8>> {
    fields.map_values(|f: FieldV| f.serialized_name)
}

pub open spec fn variant_names(variants: Seq<VariantV>) -> Seq<Seq<u8>> {
    variants.map_values(|v: VariantV| v.name)
}

/// Well-formedness of a constraint against the primitive kind it qualifies.
pub open spec fn wf_constraint(kind: PrimitiveKind, c: Option<ConstraintV>) -> bool {
    match c {
        Option::None => true,
        Option::Some(ConstraintV::Range(b)) => kind is Integer && b.min <= b.max,
        Option::Some(ConstraintV::Length(b)) => kind is Text && b.min <= b.max,
        Option::Some(ConstraintV::Pattern(d)) => kind is Text && d.wf(),
    }
}

pub open spec fn wf_fields(fields: Seq<FieldV>) -> bool
    decreases fields,
{
    &&& names_unique(field_names(fields))
    &&& forall|i: int| 0 <= i < fields.len() ==> plain(#[trigger] fields[i].serialized_name)
    &&& forall|i: int| 0 <= i < fields.len() ==> wf_td(#[trigger] fields[i].ty)
}

pub open spec fn wf_variant(v: VariantV) -> bool
    decreases v,
{
    &&& plain(v.name)
    &&& match v.kind {
        VariantKindV::Unit => true,
        VariantKindV::Tuple(t) => wf_td(*t),
        VariantKindV::Record(fields) => wf_fields(fields),
    }
}

/// The invariant of a well-formed type description: unique serialized names,
/// quotable names, matching constraints with ordered bounds, and a tagging
/// convention that names both keys or neither.
pub open spec fn wf_td(t: TdV) -> bool
    decreases t,
{
    match t {
        TdV::Record { fields } => wf_fields(fields),
        TdV::Union { variants, tag_field, content_field } => {
            &&& match (tag_field, content_field) {
                (Option::Some(tag), Option::Some(content)) => plain(tag) && plain(content) && tag
                    !== content,
                (Option::None, Option::None) => true,
                _ => false,
            }
            &&& names_unique(variant_names(variants))
            &&& forall|i: int| 0 <= i < variants.len() ==> wf_variant(#[trigger] variants[i])
        },
        TdV::Primitive { kind, constraint } => wf_constraint(kind, constraint),
    }
}

pub proof fn lemma_fields_view_index(s: Seq<FieldSpec>)
    ensures
        fields_view(s).len() == s.len(),
        forall|i: int| 0 <= i < s.len() ==> fields_view(s)[i] == field_view(#[trigger] s[i]),
    decreases s,
{
    if s.len() > 0 {
        lemma_fields_view_index(s.drop_last());
        assert forall|i: int| 0 <= i < s.len() implies fields_view(s)[i] == field_view(
            #[trigger] s[i],
        ) by {
            if i < s.len() - 1 {
                assert(s.drop_last()[i] == s[i]);
                assert(fields_view(s)[i] == fields_view(s.drop_last())[i]);
            } else {
                assert(s.last() == s[i]);
            }
        }
    }
}

pub proof fn lemma_variants_view_index(s: Seq<VariantSpec>)
    ensures
        variants_view(s).len() == s.len(),
        forall|i: int| 0 <= i < s.len() ==> variants_view(s)[i] == variant_view(#[trigger] s[i]),
    decreases s,
{
    if s.len() > 0 {
        lemma_variants_view_index(s.drop_last());
        assert forall|i: int| 0 <= i < s.len() implies variants_view(s)[i] == variant_view(
            #[trigger] s[i],
        ) by {
            if i < s.len() - 1 {
                assert(s.drop_last()[i] == s[i]);
                assert(variants_view(s)[i] == variants_view(s.drop_last())[i]);
            } else {
                assert(s.last() == s[i]);
            }
        }
    }
}

/// True when every byte of the name can stand inside a quoted key.
fn name_plain(name: &Vec<u8>) -> (r: bool)
    ensures
        r == plain(name@),
{
    let mut i: usize = 0;
    while i < name.len()
        invariant
            0 <= i <= name.len(),
            forall|k: int| 0 <= k < i ==> name@[k] != 34u8 && name@[k] != 92u8,
        decreases name.len() - i,
    {
        if name[i] == 34u8 || name[i] == 92u8 {
            return false;
        }
        i = i + 1;
    }
    true
}

/// Byte-wise equality of two names.
fn names_equal(a: &Vec<u8>, b: &Vec<u8>) -> (r: bool)
    ensures
        r == (a@ == b@),
{
    if a.len() != b.len() {
        return false;
    }
    let mut i: usize = 0;
    while i < a.len()
        invariant
            0 <= i <= a.len(),
            a.len() == b.len(),
            forall|k: int| 0 <= k < i ==> a@[k] == b@[k],
        decreases a.len() - i,
    {
        if a[i] != b[i] {
            assert(a@[i as int] != b@[i as int]);
            return false;
        }
        i = i + 1;
    }
    proof {
        assert(a@ =~= b@);
    }
    true
}

/// Checks that the automaton's table is total over its states.
fn dfa_well_formed(d: &Dfa) -> (r: bool)
    ensures
        r == d@.wf(),
{
    let n = d.accepting.len();
    if !(d.delta.len() == n && d.start < n) {
        return false;
    }
    let mut i: usize = 0;
    while i < n
        invariant
            0 <= i <= n,
            n == d@.states(),
            d.delta.len() == n,
            d.start < n,
            forall|k: int| 0 <= k < i ==> (#[trigger] d@.delta[k]).len() == 256,
            forall|k: int, j: int|
                0 <= k < i && 0 <= j < 256 ==> #[trigger] d@.delta[k][j] <= n,
        decreases n - i,
    {
        let row = &d.delta[i];
        proof {
            assert(d@.delta[i as int] == d.delta@[i as int]@);
        }
        if row.len() != 256 {
            return false;
        }
        let mut j: usize = 0;
        while j < 256
            invariant
                0 <= j <= 256,
                i < n,
                n == d@.states(),
                d.delta.len() == n,
                row@ == d@.delta[i as int],
                row.len() == 256,
                forall|k: int| 0 <= k < j ==> #[trigger] d@.delta[i as int][k] <= n,
            decreases 256 - j,
        {
            if row[j] > n {
                return false;
            }
            j = j + 1;
        }
        i = i + 1;
    }
    true
}

/// Validates one record shape: unique quotable serialized names, and a well
/// formed type for every field.
fn validate_fields(fields: &Vec<FieldSpec>) -> (r: Result<(), MalformedSpec>)
    ensures
        r is Ok <==> wf_fields(fields_view(fields@)),
    decreases fields@,
{
    proof {
        lemma_fields_view_index(fields@);
    }
    let ghost fv = fields_view(fields@);
    let n = fields.len();
    let mut i: usize = 0;
    while i < n
        invariant
            0 <= i <= n,
            n == fields.len(),
            fv == fields_view(fields@),
            fv.len() == n,
            forall|k: int| 0 <= k < fields@.len() ==> fv[k] == field_view(#[trigger] fields@[k]),
            forall|a: int, b: int|
                0 <= a < b < i ==> (#[trigger] fv[a].serialized_name) !== (
                #[trigger] fv[b].serialized_name),
            forall|k: int| 0 <= k < i ==> plain(#[trigger] fv[k].serialized_name),
            forall|k: int| 0 <= k < i ==> wf_td(#[trigger] fv[k].ty),
        decreases n - i,
    {
        let mut j: usize = 0;
        while j < i
            invariant
                0 <= j <= i < n,
                n == fields.len(),
                fv == fields_view(fields@),
                fv.len() == n,
                forall|k: int| 0 <= k < fields@.len() ==> fv[k] == field_view(#[trigger] fields@[k]),
                forall|a: int| 0 <= a < j ==> fv[a].serialized_name !== #[trigger] fv[i as int].serialized_name,
            decreases i - j,
        {
            if names_equal(&fields[j].serialized_name, &fields[i].serialized_name) {
                assert(fv[j as int].serialized_name == fv[i as int].serialized_name);
                assert(field_names(fv)[j as int] == field_names(fv)[i as int]);
                assert(!names_unique(field_names(fv)));
                return Result::Err(MalformedSpec::DuplicateFieldName);
            }
            j = j + 1;
        }
        if !name_plain(&fields[i].serialized_name) {
            assert(!plain(fv[i as int].serialized_name));
            return Result::Err(MalformedSpec::UnquotableName);
        }
        match validate(&fields[i].ty) {
            Result::Ok(()) => {},
            Result::Err(e) => {
                assert(!wf_td(fv[i as int].ty));
                return Result::Err(e);
            },
        }
        i = i + 1;
    }
    proof {
        assert forall|a: int, b: int| 0 <= a < b < field_names(fv).len() implies field_names(
            fv,
        )[a] !== field_names(fv)[b] by {
            assert(field_names(fv)[a] == fv[a].serialized_name);
            assert(field_names(fv)[b] == fv[b].serialized_name);
        }
    }
    Result::Ok(())
}

/// Validates a union's variants: unique quotable discriminants and well
/// formed payloads.
fn validate_variants(variants: &Vec<VariantSpec>) -> (r: Result<(), MalformedSpec>)
    ensures
        r is Ok <==> {
            &&& names_unique(variant_names(variants_view(variants@)))
            &&& forall|i: int|
                0 <= i < variants@.len() ==> wf_variant(#[trigger] variants_view(variants@)[i])
        },
    decreases variants@,
{
    proof {
        lemma_variants_view_index(variants@);
    }
    let ghost vv = variants_view(variants@);
    let n = variants.len();
    let mut i: usize = 0;
    while i < n
        invariant
            0 <= i <= n,
            n == variants.len(),
            vv == variants_view(variants@),
            vv.len() == n,
            forall|k: int| 0 <= k < variants@.len() ==> vv[k] == variant_view(#[trigger] variants@[k]),
            forall|a: int, b: int| 0 <= a < b < i ==> (#[trigger] vv[a].name) !== (#[trigger] vv[b].name),
            forall|k: int| 0 <= k < i ==> wf_variant(#[trigger] vv[k]),
        decreases n - i,
    {
        let mut j: usize = 0;
        while j < i
            invariant
                0 <= j <= i < n,
                n == variants.len(),
                vv == variants_view(variants@),
                vv.len() == n,
                forall|k: int| 0 <= k < variants@.len() ==> vv[k] == variant_view(#[trigger] variants@[k]),
                forall|a: int| 0 <= a < j ==> vv[a].name !== #[trigger] vv[i as int].name,
            decreases i - j,
        {
            if names_equal(&variants[j].name, &variants[i].name) {
                assert(variant_names(vv)[j as int] == variant_names(vv)[i as int]);
                assert(!names_unique(variant_names(vv)));
                return Result::Err(MalformedSpec::DuplicateVariantName);
            }
            j = j + 1;
        }
        if !name_plain(&variants[i].name) {
            assert(!wf_variant(vv[i as int]));
            return Result::Err(MalformedSpec::UnquotableName);
        }
        match &variants[i].kind {
            VariantKind::Unit => {},
            VariantKind::Tuple(t) => {
                match validate(t) {
                    Result::Ok(()) => {},
                    Result::Err(e) => {
                        assert(!wf_variant(vv[i as int]));
                        return Result::Err(e);
                    },
                }
            },
            VariantKind::Record(fields) => {
                match validate_fields(fields) {
                    Result::Ok(()) => {},
                    Result::Err(e) => {
                        assert(!wf_variant(vv[i as int]));
                        return Result::Err(e);
                    },
                }
            },
        }
        assert(wf_variant(vv[i as int]));
        i = i + 1;
    }
    proof {
        assert forall|a: int, b: int| 0 <= a < b < variant_names(vv).len() implies variant_names(
            vv,
        )[a] !== variant_names(vv)[b] by {
            assert(variant_names(vv)[a] == vv[a].name);
            assert(variant_names(vv)[b] == vv[b].name);
        }
    }
    Result::Ok(())
}

/// Decides once, at compile time, whether a description is well formed.
/// Every later compilation step succeeds exactly on descriptions this
/// function accepts.
pub fn validate(td: &TypeDescription) -> (r: Result<(), MalformedSpec>)
    ensures
        r is Ok <==> wf_td(td@),
    decreases *td,
{
    match td {
        TypeDescription::Record { fields } => {
            proof {
                assert(td@ matches TdV::Record { fields: fv } && fv == fields_view(fields@));
            }
            validate_fields(fields)
        },
        TypeDescription::Union { variants, tag_field, content_field } => {
            proof {
                lemma_variants_view_index(variants@);
                assert(td@ matches TdV::Union { variants: vv, .. } && vv == variants_view(
                    variants@,
                ));
            }
            match (tag_field, content_field) {
                (Option::Some(tag), Option::Some(content)) => {
                    if !name_plain(tag) || !name_plain(content) {
                        return Result::Err(MalformedSpec::UnquotableName);
                    }
                    if names_equal(tag, content) {
                        return Result::Err(MalformedSpec::MismatchedTagging);
                    }
                },
                (Option::None, Option::None) => {},
                _ => {
                    return Result::Err(MalformedSpec::MismatchedTagging);
                },
            }
            proof {
                assert(td@ matches TdV::Union { variants: vv, .. } && vv == variants_view(
                    variants@,
                ));
            }
            validate_variants(variants)
        },
        TypeDescription::Primitive { kind, constraint } => {
            proof {
                assert(td@ matches TdV::Primitive { kind: k, constraint: cv } && k == *kind
                    && cv == match constraint {
                        Option::Some(c) => Option::Some(c@),
                        Option::None => Option::None,
                    });
            }
            match constraint {
                Option::None => Result::Ok(()),
                Option::Some(Constraint::Range(b)) => {
                    if !matches!(kind, PrimitiveKind::Integer) {
                        Result::Err(MalformedSpec::MismatchedConstraint)
                    } else if b.min > b.max {
                        Result::Err(MalformedSpec::InvertedBounds)
                    } else {
                        Result::Ok(())
                    }
                },
                Option::Some(Constraint::Length(b)) => {
                    if !matches!(kind, PrimitiveKind::Text) {
                        Result::Err(MalformedSpec::MismatchedConstraint)
                    } else if b.min > b.max {
                        Result::Err(MalformedSpec::InvertedBounds)
                    } else {
                        Result::Ok(())
                    }
                },
                Option::Some(Constraint::Pattern(d)) => {
                    if !matches!(kind, PrimitiveKind::Text) {
                        Result::Err(MalformedSpec::MismatchedConstraint)
                    } else if !dfa_well_formed(d) {
                        Result::Err(MalformedSpec::InvalidPattern)
                    } else {
                        Result::Ok(())
                    }
                },
            }
        },
    }
}

/// The state of the automaton after reading `s` from state `st`. A state
/// outside the table acts as an absorbing dead marker.
pub open spec fn dfa_run(d: DfaV, st: int, s: Seq<u8>) -> int
    decreases s.len(),
{
    if s.len() == 0 {
        st
    } else if 0 <= st < d.states() && st < d.delta.len() && d.delta[st].len() == 256 {
        dfa_run(d, d.delta[st][s[0] as int] as int, s.drop_first())
    } else {
        d.states()
    }
}

/// The word is in the automaton's language: the walk from the start state
/// ends in an accepting state.
pub open spec fn dfa_accepts(d: DfaV, s: Seq<u8>) -> bool {
    &&& 0 <= dfa_run(d, d.start, s) < d.states()
    &&& d.accepting[dfa_run(d, d.start, s)]
}

/// One maximal alternative of a pattern expression: the bytes from `i` to
/// `j` inclusive, delimited by the expression's ends or by `|` bytes.
pub open spec fn pattern_chunk(expr: Seq<u8>, i: int, j: int) -> bool {
    &&& 0 <= i <= j < expr.len()
    &&& (i == 0 || expr[i - 1] == 124)
    &&& (j == expr.len() - 1 || expr[j + 1] == 124)
    &&& forall|t: int| i <= t <= j ==> expr[t] != 124
}

/// A byte that stands for itself inside a pattern alternative: not the
/// alternation bar, not a quote or backslash (which no string body can
/// hold), and not a reserved operator byte of the usual pattern notations —
/// operators beyond alternation are rejected rather than read as literals.
pub open spec fn pattern_literal_byte(b: u8) -> bool {
    b != 34 && b != 92 && b != 124 && b != 42 && b != 43 && b != 63 && b != 40 && b != 41 && b
        != 91 && b != 93 && b != 123 && b != 125 && b != 46 && b != 94 && b != 36
}

/// A pattern expression is malformed when it is empty, an alternative is
/// empty, or an alternative holds a byte that cannot stand for itself.
pub open spec fn pattern_expr_malformed(expr: Seq<u8>) -> bool {
    ||| expr.len() == 0
    ||| expr[0] == 124
    ||| expr[expr.len() - 1] == 124
    ||| exists|i: int| 0 <= i < expr.len() - 1 && (#[trigger] expr[i]) == 124 && expr[i + 1] == 124
    ||| exists|i: int|
        0 <= i < expr.len() && (#[trigger] expr[i]) != 124 && !pattern_literal_byte(expr[i])
}

/// Decides `pattern_expr_malformed`.
fn pattern_expr_check(expr: &Vec<u8>) -> (r: bool)
    ensures
        r == pattern_expr_malformed(expr@),
{
    let n = expr.len();
    if n == 0 {
        return true;
    }
    if expr[0] == 124 || expr[n - 1] == 124 {
        return true;
    }
    let mut i: usize = 0;
    while i < n
        invariant
            0 <= i <= n,
            n == expr@.len(),
            forall|t: int|
                0 <= t < i ==> ((#[trigger] expr@[t]) == 124 || pattern_literal_byte(expr@[t])),
            forall|t: int|
                0 <= t < i && t < n - 1 ==> !((#[trigger] expr@[t]) == 124 && expr@[t + 1] == 124),
        decreases n - i,
    {
        if expr[i] != 124 && !byte_is_pattern_literal(expr[i]) {
            return true;
        }
        if i + 1 < n && expr[i] == 124 && expr[i + 1] == 124 {
            return true;
        }
        i = i + 1;
    }
    false
}

/// Decides `pattern_literal_byte`.
fn byte_is_pattern_literal(b: u8) -> (r: bool)
    ensures
        r == pattern_literal_byte(b),
{
    b != 34 && b != 92 && b != 124 && b != 42 && b != 43 && b != 63 && b != 40 && b != 41 && b
        != 91 && b != 93 && b != 123 && b != 125 && b != 46 && b != 94 && b != 36
}

/// The state of the construction table after reading `s` from `st`. The
/// table is flat (state `q`, byte `c` at index `256 q + c`), and
/// `usize::MAX` stands both for a missing entry and for the dead outcome.
pub open spec fn flat_run(table: Seq<usize>, st: int, s: Seq<u8>) -> int
    decreases s.len(),
{
    if s.len() == 0 {
        st
    } else if 0 <= st && 256 * st + 256 <= table.len() {
        if table[256 * st + s[0]] == usize::MAX {
            usize::MAX as int
        } else {
            flat_run(table, table[256 * st + s[0]] as int, s.drop_first())
        }
    } else {
        usize::MAX as int
    }
}

/// The bytes `expr[i..=j]` walk the construction table from the root to an
/// accepting state.
pub open spec fn flat_accepted(table: Seq<usize>, acc: Seq<bool>, expr: Seq<u8>, i: int, j: int) -> bool {
    let f = flat_run(table, 0, expr.subrange(i, j + 1));
    0 <= f < acc.len() && acc[f]
}

/// Every byte of the word can stand inside a string body and inside a
/// pattern alternative.
pub open spec fn all_literal_bytes(w: Seq<u8>) -> bool {
    forall|k: int| 0 <= k < w.len() ==> pattern_literal_byte(#[trigger] w[k])
}

/// Some word of plain literal bytes walks the automaton from state `q` to
/// an accepting state: no live state is a trap, so a session inside the
/// pattern body can always be completed.
pub open spec fn dfa_state_viable(d: DfaV, q: int) -> bool {
    exists|w: Seq<u8>|
        all_literal_bytes(w) && 0 <= #[trigger] dfa_run(d, q, w) < d.states() && d.accepting[
            dfa_run(d, q, w)]
}

/// Some word of plain literal bytes walks the construction table from `q`
/// to an accepting state.
pub open spec fn flat_viable(table: Seq<usize>, acc: Seq<bool>, q: int) -> bool {
    exists|w: Seq<u8>|
        all_literal_bytes(w) && 0 <= #[trigger] flat_run(table, q, w) < acc.len() && acc[flat_run(
            table,
            q,
            w,
        )]
}

/// `q` lies on the walk of the chunk currently being inserted.
pub open spec fn on_open_chunk(table: Seq<usize>, expr: Seq<u8>, gcs: int, pos: int, q: int) -> bool {
    exists|tp: int| gcs <= tp <= pos && #[trigger] flat_run(table, 0, expr.subrange(gcs, tp)) == q
}

proof fn lemma_flat_run_append(t: Seq<usize>, st: int, a: Seq<u8>, b: Seq<u8>, nst: int)
    requires
        t.len() == 256 * nst,
        t.len() <= usize::MAX,
        0 <= flat_run(t, st, a) < nst,
    ensures
        flat_run(t, st, a + b) == flat_run(t, flat_run(t, st, a), b),
    decreases a.len(),
{
    if a.len() == 0 {
        assert(a + b =~= b);
    } else {
        assert(nst <= usize::MAX as int);
        assert(0 <= st && 256 * st + 256 <= t.len());
        assert(t[256 * st + a[0]] != usize::MAX);
        assert((a + b)[0] == a[0]);
        assert((a + b).drop_first() =~= a.drop_first() + b);
        lemma_flat_run_append(t, t[256 * st + a[0]] as int, a.drop_first(), b, nst);
    }
}

proof fn lemma_flat_run_snoc(t: Seq<usize>, st: int, s: Seq<u8>, c: u8, nst: int)
    requires
        t.len() == 256 * nst,
        t.len() <= usize::MAX,
        0 <= flat_run(t, st, s) < nst,
    ensures
        flat_run(t, st, s.push(c)) == (if t[256 * flat_run(t, st, s) + c] == usize::MAX {
            usize::MAX as int
        } else {
            t[256 * flat_run(t, st, s) + c] as int
        }),
    decreases s.len(),
{
    reveal_with_fuel(flat_run, 3);
    if s.len() == 0 {
        assert(s.push(c)[0] == c);
        assert(s.push(c).drop_first() =~= Seq::<u8>::empty());
    } else {
        assert(nst <= usize::MAX as int);
        assert(0 <= st && 256 * st + 256 <= t.len());
        assert(t[256 * st + s[0]] != usize::MAX);
        assert(s.push(c)[0] == s[0]);
        assert(s.push(c).drop_first() =~= s.drop_first().push(c));
        lemma_flat_run_snoc(t, t[256 * st + s[0]] as int, s.drop_first(), c, nst);
    }
}

proof fn lemma_flat_run_monotone(t1: Seq<usize>, t2: Seq<usize>, st: int, s: Seq<u8>, nst: int)
    requires
        t1.len() == 256 * nst,
        t1.len() <= usize::MAX,
        t1.len() <= t2.len(),
        forall|q: int| 0 <= q < t1.len() && (#[trigger] t1[q]) != usize::MAX ==> t2[q] == t1[q],
        0 <= flat_run(t1, st, s) < nst,
    ensures
        flat_run(t2, st, s) == flat_run(t1, st, s),
    decreases s.len(),
{
    if s.len() > 0 {
        assert(nst <= usize::MAX as int);
        assert(0 <= st && 256 * st + 256 <= t1.len());
        assert(t1[256 * st + s[0]] != usize::MAX);
        assert(t2[256 * st + s[0]] == t1[256 * st + s[0]]);
        lemma_flat_run_monotone(t1, t2, t1[256 * st + s[0]] as int, s.drop_first(), nst);
    }
}

proof fn lemma_flat_run_to_dfa(t: Seq<usize>, d: DfaV, st: int, s: Seq<u8>)
    requires
        t.len() == 256 * d.states(),
        t.len() <= usize::MAX,
        d.delta.len() == d.states(),
        forall|q: int| 0 <= q < d.states() ==> (#[trigger] d.delta[q]).len() == 256,
        forall|q: int, c2: int|
            0 <= q < d.states() && 0 <= c2 < 256 ==> (#[trigger] d.delta[q][c2]) as int == (if t[
                256 * q + c2] == usize::MAX {
                d.states()
            } else {
                t[256 * q + c2] as int
            }),
        0 <= flat_run(t, st, s) < d.states(),
    ensures
        dfa_run(d, st, s) == flat_run(t, st, s),
    decreases s.len(),
{
    if s.len() > 0 {
        assert(d.states() <= usize::MAX as int);
        assert(0 <= st && 256 * st + 256 <= t.len());
        assert(t[256 * st + s[0]] != usize::MAX);
        assert(d.delta[st][s[0] as int] as int == t[256 * st + s[0]] as int);
        lemma_flat_run_to_dfa(t, d, t[256 * st + s[0]] as int, s.drop_first());
    }
}

/// Inside a `|`-free window delimited like a chunk, the only chunk is the
/// window itself.
proof fn lemma_chunk_in_window(expr: Seq<u8>, i: int, j: int, cs: int, e: int)
    requires
        pattern_chunk(expr, i, j),
        0 <= cs <= j,
        j < e <= expr.len(),
        cs == 0 || expr[cs - 1] == 124,
        forall|t: int| cs <= t < e ==> expr[t] != 124,
        e == expr.len() || expr[e] == 124,
    ensures
        i == cs && j == e - 1,
{
    if j < e - 1 {
        assert(expr[j + 1] != 124);
        assert(false);
    }
    if i > cs {
        assert(expr[i - 1] != 124);
        assert(false);
    }
    if i < cs {
        assert(expr[cs - 1] == 124);
        assert(i <= cs - 1 <= j);
        assert(false);
    }
}

/// Compiles a pattern expression — alternatives of literal bytes separated
/// by `|`, as in a choice of plain words — into a finite automaton whose
/// walk the parser drives one transition per byte. It fails exactly on a
/// malformed expression: empty, an empty alternative, or an alternative
/// holding a quote, backslash, or reserved operator byte. A built automaton
/// is well formed, accepts every alternative of the expression, and has no
/// trap state: every state still reaches acceptance.
#[verifier::loop_isolation(false)]
#[verifier::rlimit(100)]
pub fn compile_pattern(expr: &Vec<u8>) -> (r: Result<Dfa, MalformedSpec>)
    ensures
        r is Ok <==> !pattern_expr_malformed(expr@),
        r matches Err(e) ==> e == MalformedSpec::InvalidPattern,
        r matches Ok(d) ==> d@.wf(),
        r matches Ok(d) ==> forall|i: int, j: int|
            pattern_chunk(expr@, i, j) ==> dfa_accepts(d@, expr@.subrange(i, j + 1)),
        r matches Ok(d) ==> forall|q: int| 0 <= q < d@.states() ==> #[trigger] dfa_state_viable(
            d@,
            q,
        ),
{
    if pattern_expr_check(expr) {
        return Result::Err(MalformedSpec::InvalidPattern);
    }
    // Trie construction over a flat table; usize::MAX marks a missing
    // transition until the final row layout fixes the dead marker.
    let missing = usize::MAX;
    let mut table: Vec<usize> = Vec::new();
    let mut accepting: Vec<bool> = Vec::new();
    accepting.push(false);
    let mut z: usize = 0;
    while z < 256
        invariant
            0 <= z <= 256,
            table@.len() == z,
            forall|q: int| 0 <= q < z ==> table@[q] == usize::MAX,
        decreases 256 - z,
    {
        table.push(missing);
        z = z + 1;
    }
    let n_expr = expr.len();
    let mut pos: usize = 0;
    let mut cur: usize = 0;
    let ghost mut gcs: int = 0;
    proof {
        assert(expr@.subrange(0, 0) =~= Seq::<u8>::empty());
        assert(flat_run(table@, 0, expr@.subrange(0, 0)) == 0);
        assert(on_open_chunk(table@, expr@, 0, 0, 0));
    }
    while pos < n_expr
        invariant
            0 <= pos <= n_expr,
            accepting@.len() >= 1,
            table@.len() == 256 * accepting@.len(),
            table@.len() <= usize::MAX,
            cur < accepting@.len(),
            forall|q: int| 0 <= q < table@.len() ==> (#[trigger] table@[q]) == usize::MAX
                || table@[q] < accepting@.len(),
            0 <= gcs <= pos,
            gcs == 0 || expr@[gcs - 1] == 124,
            forall|t: int| gcs <= t < pos ==> expr@[t] != 124,
            flat_run(table@, 0, expr@.subrange(gcs, pos as int)) == cur,
            forall|i: int, j: int|
                pattern_chunk(expr@, i, j) && j + 1 < gcs ==> flat_accepted(
                    table@,
                    accepting@,
                    expr@,
                    i,
                    j,
                ),
            forall|q: int|
                0 <= q < accepting@.len() ==> flat_viable(table@, accepting@, q) || on_open_chunk(
                    table@,
                    expr@,
                    gcs,
                    pos as int,
                    q,
                ),
        decreases n_expr - pos,
    {
        let ghost done = expr@.subrange(gcs, pos as int);
        let c = expr[pos];
        if c == 124 {
            proof {
                if gcs == pos {
                    if pos == 0 {
                        assert(pattern_expr_malformed(expr@));
                    } else {
                        assert(expr@[pos - 1] == 124);
                        assert(pattern_expr_malformed(expr@));
                    }
                    assert(false);
                }
            }
            let ghost acc_before = accepting@;
            accepting[cur] = true;
            proof {
                assert forall|i: int, j: int|
                    pattern_chunk(expr@, i, j) && j + 1 < pos + 1 implies flat_accepted(
                    table@,
                    accepting@,
                    expr@,
                    i,
                    j,
                ) by {
                    if j + 1 < gcs {
                        assert(flat_accepted(table@, acc_before, expr@, i, j));
                        assert(accepting@[flat_run(table@, 0, expr@.subrange(i, j + 1))]);
                    } else {
                        assert(j >= gcs) by {
                            if j == gcs - 1 {
                                assert(expr@[j] == 124);
                            }
                        }
                        lemma_chunk_in_window(expr@, i, j, gcs, pos as int);
                        assert(expr@.subrange(i, j + 1) =~= done);
                        assert(accepting@[cur as int]);
                    }
                }
                assert forall|q: int| 0 <= q < accepting@.len() implies flat_viable(
                    table@,
                    accepting@,
                    q,
                ) by {
                    if flat_viable(table@, acc_before, q) {
                        let w0 = choose|w: Seq<u8>|
                            all_literal_bytes(w) && 0 <= #[trigger] flat_run(table@, q, w)
                                < acc_before.len() && acc_before[flat_run(table@, q, w)];
                        assert(accepting@[flat_run(table@, q, w0)]);
                    } else {
                        assert(on_open_chunk(table@, expr@, gcs, pos as int, q));
                        let tp = choose|tp: int|
                            gcs <= tp <= pos && #[trigger] flat_run(
                                table@,
                                0,
                                expr@.subrange(gcs, tp),
                            ) == q;
                        lemma_flat_run_append(
                            table@,
                            0,
                            expr@.subrange(gcs, tp),
                            expr@.subrange(tp, pos as int),
                            accepting@.len() as int,
                        );
                        assert(expr@.subrange(gcs, tp) + expr@.subrange(tp, pos as int)
                            =~= done);
                        assert(flat_run(table@, q, expr@.subrange(tp, pos as int)) == cur);
                        assert(accepting@[cur as int]);
                    }
                }
            }
            cur = 0;
            proof {
                gcs = pos + 1;
                assert(expr@.subrange(gcs, pos as int + 1) =~= Seq::<u8>::empty());
            }
        } else {
            let tl = table.len();
            proof {
                assert(cur * 256 + 256 <= tl) by (nonlinear_arith)
                    requires
                        cur < accepting@.len(),
                        tl == 256 * accepting@.len(),
                ;
            }
            let idx = cur * 256 + (c as usize);
            let t = table[idx];
            proof {
                assert(idx == 256 * (cur as int) + c);
            }
            if t == missing {
                let fresh = accepting.len();
                let ghost table_before = table@;
                let ghost acc_old = accepting@;
                let ghost n_before = accepting@.len() as int;
                table[idx] = fresh;
                accepting.push(false);
                let mut y: usize = 0;
                while y < 256
                    invariant
                        0 <= y <= 256,
                        accepting@.len() >= 1,
                        table@.len() == 256 * (accepting@.len() - 1) + y,
                        fresh == accepting@.len() - 1,
                        idx < table_before.len(),
                        table_before.len() == 256 * (accepting@.len() - 1),
                        table@.len() >= table_before.len(),
                        table@[idx as int] == fresh,
                        forall|q: int|
                            0 <= q < table_before.len() && q != idx ==> #[trigger] table@[q]
                                == table_before[q],
                        forall|q: int| table_before.len() <= q < table@.len()
                            ==> #[trigger] table@[q] == usize::MAX,
                        forall|q: int| 0 <= q < table@.len() ==> (#[trigger] table@[q])
                            == usize::MAX || table@[q] < accepting@.len(),
                    decreases 256 - y,
                {
                    table.push(missing);
                    y = y + 1;
                }
                let tl2 = table.len();
                proof {
                    assert(table@.len() == tl2);
                    assert(table@.len() == 256 * accepting@.len());
                    assert forall|q: int|
                        0 <= q < table_before.len() && (#[trigger] table_before[q]) != usize::MAX
                        implies table@[q] == table_before[q] by {
                        assert(table_before[idx as int] == usize::MAX);
                    }
                    lemma_flat_run_monotone(table_before, table@, 0, done, n_before);
                    lemma_flat_run_snoc(table@, 0, done, c, accepting@.len() as int);
                    assert(expr@.subrange(gcs, pos as int + 1) =~= done.push(c));
                    assert(table@[256 * (cur as int) + c] == fresh);
                    assert forall|i: int, j: int|
                        pattern_chunk(expr@, i, j) && j + 1 < gcs implies flat_accepted(
                        table@,
                        accepting@,
                        expr@,
                        i,
                        j,
                    ) by {
                        assert(flat_accepted(table_before, accepting@.drop_last(), expr@, i, j));
                        lemma_flat_run_monotone(
                            table_before,
                            table@,
                            0,
                            expr@.subrange(i, j + 1),
                            n_before,
                        );
                        assert(accepting@.drop_last()[flat_run(
                            table_before,
                            0,
                            expr@.subrange(i, j + 1),
                        )] == accepting@[flat_run(table_before, 0, expr@.subrange(i, j + 1))]);
                    }
                    assert forall|q: int| 0 <= q < accepting@.len() implies flat_viable(
                        table@,
                        accepting@,
                        q,
                    ) || on_open_chunk(table@, expr@, gcs, pos + 1, q) by {
                        if q < n_before {
                            if flat_viable(table_before, acc_old, q) {
                                let w0 = choose|w: Seq<u8>|
                                    all_literal_bytes(w) && 0 <= #[trigger] flat_run(
                                        table_before,
                                        q,
                                        w,
                                    ) < acc_old.len() && acc_old[flat_run(table_before, q, w)];
                                lemma_flat_run_monotone(table_before, table@, q, w0, n_before);
                                assert(accepting@[flat_run(table@, q, w0)]);
                                assert(flat_viable(table@, accepting@, q));
                            } else {
                                assert(on_open_chunk(table_before, expr@, gcs, pos as int, q));
                                let tp = choose|tp: int|
                                    gcs <= tp <= pos && #[trigger] flat_run(
                                        table_before,
                                        0,
                                        expr@.subrange(gcs, tp),
                                    ) == q;
                                lemma_flat_run_monotone(
                                    table_before,
                                    table@,
                                    0,
                                    expr@.subrange(gcs, tp),
                                    n_before,
                                );
                                assert(flat_run(table@, 0, expr@.subrange(gcs, tp)) == q);
                                assert(on_open_chunk(table@, expr@, gcs, pos + 1, q));
                            }
                        } else {
                            assert(q == fresh);
                            assert(flat_run(table@, 0, expr@.subrange(gcs, pos + 1)) == fresh);
                            assert(on_open_chunk(table@, expr@, gcs, pos + 1, q));
                        }
                    }
                }
                cur = fresh;
            } else {
                proof {
                    lemma_flat_run_snoc(table@, 0, done, c, accepting@.len() as int);
                    assert(expr@.subrange(gcs, pos as int + 1) =~= done.push(c));
                    assert(table@[256 * (cur as int) + c] == t);
                    assert forall|q: int| 0 <= q < accepting@.len() implies flat_viable(
                        table@,
                        accepting@,
                        q,
                    ) || on_open_chunk(table@, expr@, gcs, pos + 1, q) by {
                        if !flat_viable(table@, accepting@, q) {
                            assert(on_open_chunk(table@, expr@, gcs, pos as int, q));
                            let tp = choose|tp: int|
                                gcs <= tp <= pos && #[trigger] flat_run(
                                    table@,
                                    0,
                                    expr@.subrange(gcs, tp),
                                ) == q;
                            assert(on_open_chunk(table@, expr@, gcs, pos + 1, q));
                        }
                    }
                }
                cur = t;
            }
        }
        pos = pos + 1;
    }
    let ghost done = expr@.subrange(gcs, n_expr as int);
    proof {
        if gcs == n_expr {
            if n_expr == 0 {
                assert(pattern_expr_malformed(expr@));
            } else {
                assert(expr@[n_expr - 1] == 124);
                assert(pattern_expr_malformed(expr@));
            }
            assert(false);
        }
    }
    let ghost acc_before = accepting@;
    accepting[cur] = true;
    proof {
        assert forall|i: int, j: int| pattern_chunk(expr@, i, j) implies flat_accepted(
            table@,
            accepting@,
            expr@,
            i,
            j,
        ) by {
            if j + 1 < gcs {
                assert(flat_accepted(table@, acc_before, expr@, i, j));
                assert(accepting@[flat_run(table@, 0, expr@.subrange(i, j + 1))]);
            } else {
                assert(j >= gcs) by {
                    if j == gcs - 1 {
                        assert(expr@[j] == 124);
                    }
                }
                lemma_chunk_in_window(expr@, i, j, gcs, n_expr as int);
                assert(expr@.subrange(i, j + 1) =~= done);
                assert(accepting@[cur as int]);
            }
        }
        assert forall|q: int| 0 <= q < accepting@.len() implies flat_viable(
            table@,
            accepting@,
            q,
        ) by {
            if flat_viable(table@, acc_before, q) {
                let w0 = choose|w: Seq<u8>|
                    all_literal_bytes(w) && 0 <= #[trigger] flat_run(table@, q, w)
                        < acc_before.len() && acc_before[flat_run(table@, q, w)];
                assert(accepting@[flat_run(table@, q, w0)]);
            } else {
                assert(on_open_chunk(table@, expr@, gcs, n_expr as int, q));
                let tp = choose|tp: int|
                    gcs <= tp <= n_expr && #[trigger] flat_run(
                        table@,
                        0,
                        expr@.subrange(gcs, tp),
                    ) == q;
                lemma_flat_run_append(
                    table@,
                    0,
                    expr@.subrange(gcs, tp),
                    expr@.subrange(tp, n_expr as int),
                    accepting@.len() as int,
                );
                assert(expr@.subrange(gcs, tp) + expr@.subrange(tp, n_expr as int) =~= done);
                assert(flat_run(table@, q, expr@.subrange(tp, n_expr as int)) == cur);
                assert(accepting@[cur as int]);
            }
        }
    }
    let ghost acc_final = accepting@;
    let ghost table_final = table@;
    // Lay the flat table out in rows, turning the construction marker into
    // the out-of-range dead marker `n`.
    let n = accepting.len();
    let mut delta: Vec<Vec<usize>> = Vec::new();
    let mut s2: usize = 0;
    while s2 < n
        invariant
            0 <= s2 <= n,
            n == accepting@.len(),
            accepting@ == acc_final,
            table@ == table_final,
            table@.len() == 256 * n,
            forall|q: int| 0 <= q < table@.len() ==> (#[trigger] table@[q]) == usize::MAX
                || table@[q] < n,
            delta@.len() == s2,
            forall|q: int| 0 <= q < s2 ==> (#[trigger] delta@[q])@.len() == 256,
            forall|q: int, c2: int|
                0 <= q < s2 && 0 <= c2 < 256 ==> #[trigger] delta@[q]@[c2] <= n,
            forall|q: int, c2: int|
                0 <= q < s2 && 0 <= c2 < 256 ==> #[trigger] delta@[q]@[c2] == (if table@[256 * q
                    + c2] == usize::MAX {
                    n as int
                } else {
                    table@[256 * q + c2] as int
                }),
        decreases n - s2,
    {
        let tl = table.len();
        proof {
            assert(s2 * 256 + 256 <= tl) by (nonlinear_arith)
                requires
                    s2 < n,
                    tl == 256 * n,
            ;
        }
        let mut row: Vec<usize> = Vec::new();
        let mut c2: usize = 0;
        while c2 < 256
            invariant
                0 <= c2 <= 256,
                s2 < n,
                256 * s2 + 256 <= table@.len(),
                row@.len() == c2,
                forall|q: int| 0 <= q < c2 ==> #[trigger] row@[q] <= n,
                forall|q: int|
                    0 <= q < c2 ==> #[trigger] row@[q] == (if table@[256 * (s2 as int) + q]
                        == usize::MAX {
                        n as int
                    } else {
                        table@[256 * (s2 as int) + q] as int
                    }),
            decreases 256 - c2,
        {
            proof {
                assert(s2 * 256 + c2 < tl);
            }
            let e = table[s2 * 256 + c2];
            proof {
                assert(256 * (s2 as int) + c2 == (s2 as int) * 256 + c2);
            }
            if e == missing {
                row.push(n);
            } else {
                row.push(e);
            }
            c2 = c2 + 1;
        }
        delta.push(row);
        s2 = s2 + 1;
    }
    let d = Dfa { start: 0, accepting, delta };
    proof {
        assert forall|q: int| 0 <= q < d@.states() implies (#[trigger] d@.delta[q]).len()
            == 256 by {
            assert(d@.delta[q] == d.delta@[q]@);
        }
        assert forall|q: int, c2: int|
            0 <= q < d@.states() && 0 <= c2 < 256 implies #[trigger] d@.delta[q][c2]
            <= d@.states() by {
            assert(d@.delta[q] == d.delta@[q]@);
        }
        assert(d@.wf());
        assert forall|q: int, c2: int|
            0 <= q < d@.states() && 0 <= c2 < 256 implies (#[trigger] d@.delta[q][c2]) as int == (
        if table_final[256 * q + c2] == usize::MAX {
            d@.states()
        } else {
            table_final[256 * q + c2] as int
        }) by {
            assert(d@.delta[q] == d.delta@[q]@);
        }
        assert forall|i: int, j: int| pattern_chunk(expr@, i, j) implies dfa_accepts(
            d@,
            expr@.subrange(i, j + 1),
        ) by {
            assert(flat_accepted(table_final, acc_final, expr@, i, j));
            lemma_flat_run_to_dfa(table_final, d@, 0, expr@.subrange(i, j + 1));
        }
        assert forall|q: int| 0 <= q < d@.states() implies #[trigger] dfa_state_viable(
            d@,
            q,
        ) by {
            assert(flat_viable(table_final, acc_final, q));
            let w0 = choose|w: Seq<u8>|
                all_literal_bytes(w) && 0 <= #[trigger] flat_run(table_final, q, w)
                    < acc_final.len() && acc_final[flat_run(table_final, q, w)];
            lemma_flat_run_to_dfa(table_final, d@, q, w0);
            assert(0 <= dfa_run(d@, q, w0) < d@.states() && d@.accepting[dfa_run(d@, q, w0)]);
        }
    }
    Result::Ok(d)
}

} // verus!
