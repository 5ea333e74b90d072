//! The parser side of the library: a `TypeDescription` compiles into an
//! incremental byte-level acceptor. A parse session owns a `ParserState`
//! and feeds one byte at a time; at every prefix the session is live,
//! rejected with a reason, or finishable. The spec function `spec_step`
//! states the transition on every byte, and `spec_feed` its iteration, so
//! feeding byte by byte and feeding a whole buffer are provably the same.

use vstd::prelude::*;

use crate::desc::ConstraintV;
use crate::desc::Dfa;
use crate::desc::DfaV;
use crate::desc::FieldSpec;
use crate::desc::FieldV;
use crate::desc::MalformedSpec;
use crate::desc::PrimitiveKind;
use crate::desc::TdV;
use crate::desc::TypeDescription;
use crate::desc::VariantKindV;
use crate::desc::VariantV;
use crate::desc::validate;
use crate::desc::wf_td;
use crate::render::quoted;
use crate::schema::all_unit;
use crate::schema::mixed_content_key;
use crate::schema::mixed_tag_key;
use crate::value::Atom;
use crate::value::AtomV;
use crate::value::ValueV;
use crate::value::Value;
use crate::value::assemble;
use crate::value::atoms_view;
use crate::value::spec_assemble;

verus! {

/// Why a byte was rejected during `advance`. Every rejection is local to
/// the parse session: the surrounding loop treats it as "this candidate
/// continuation is excluded", never as a fatal condition.
#[derive(Clone, Copy, PartialEq, Eq, Structural, Debug)]
pub enum ParseError {
    /// The byte fits no structural literal, or arrives after completion.
    UnexpectedByte(u8),
    /// The digits seen so far can no longer denote a value inside the range.
    RangeViolation,
    /// The string body left its length bounds.
    LengthViolation,
    /// The pattern automaton has no live continuation for the byte.
    PatternMismatch,
    /// No known discriminant matches the bytes seen so far.
    UnknownVariantTag,
}

/// One live alternative of a union dispatch: how far into its discriminant
/// literal the session has read, and the parser that continues after it.
pub struct Branch {
    pub tag: usize,
    pub lit: Vec<u8>,
    pub pos: usize,
    pub next: PNode,
}

/// An immutable compiled parser node, doubling as the cursor of a running
/// session: positions inside literals, digits accumulated for a ranged
/// integer, the automaton state of a pattern, and the live branches of a
/// union dispatch.
pub enum PNode {
    Done,
    Lit { bytes: Vec<u8>, pos: usize, next: Box<PNode> },
    Num { lo: u64, hi: u64, acc: Option<u64>, next: Box<PNode> },
    Txt { min: u64, max: u64, inside: bool, body: Vec<u8>, next: Box<PNode> },
    Pat { dfa: Dfa, state: usize, inside: bool, body: Vec<u8>, next: Box<PNode> },
    Alts { branches: Vec<Branch> },
}

/// Mathematical model of a `Branch`.
pub struct BranchV {
    pub tag: usize,
    pub lit: Seq<u8>,
    pub pos: int,
    pub next: PNodeV,
}

/// Mathematical model of a `PNode`.
pub enum PNodeV {
    Done,
    Lit { bytes: Seq<u8>, pos: int, next: Box<PNodeV> },
    Num { lo: u64, hi: u64, acc: Option<u64>, next: Box<PNodeV> },
    Txt { min: u64, max: u64, inside: bool, body: Seq<u8>, next: Box<PNodeV> },
    Pat { dfa: DfaV, state: int, inside: bool, body: Seq<u8>, next: Box<PNodeV> },
    Alts { branches: Seq<BranchV> },
}

pub open spec fn branches_view(s: Seq<Branch>) -> Seq<BranchV>
    decreases s,
{
    if s.len() == 0 {
        Seq::empty()
    } else {
        branches_view(s.drop_last()).push(branch_view(s.last()))
    }
}

pub open spec fn branch_view(br: Branch) -> BranchV
    decreases br,
{
    BranchV { tag: br.tag, lit: br.lit@, pos: br.pos as int, next: pnode_view(br.next) }
}

pub open spec fn pnode_view(n: PNode) -> PNodeV
    decreases n,
{
    match n {
        PNode::Done => PNodeV::Done,
        PNode::Lit { bytes, pos, next } => PNodeV::Lit {
            bytes: bytes@,
            pos: pos as int,
            next: Box::new(pnode_view(*next)),
        },
        PNode::Num { lo, hi, acc, next } => PNodeV::Num {
            lo,
            hi,
            acc,
            next: Box::new(pnode_view(*next)),
        },
        PNode::Txt { min, max, inside, body, next } => PNodeV::Txt {
            min,
            max,
            inside,
            body: body@,
            next: Box::new(pnode_view(*next)),
        },
        PNode::Pat { dfa, state, inside, body, next } => PNodeV::Pat {
            dfa: dfa@,
            state: state as int,
            inside,
            body: body@,
            next: Box::new(pnode_view(*next)),
        },
        PNode::Alts { branches } => PNodeV::Alts { branches: branches_view(branches@) },
    }
}

impl View for PNode {
    type V = PNodeV;

    open spec fn view(&self) -> PNodeV {
        pnode_view(*self)
    }
}

pub proof fn lemma_branches_view_index(s: Seq<Branch>)
    ensures
        branches_view(s).len() == s.len(),
        forall|i: int| 0 <= i < s.len() ==> (#[trigger] branches_view(s)[i]) == branch_view(s[i]),
    decreases s,
{
    if s.len() > 0 {
        lemma_branches_view_index(s.drop_last());
        assert forall|i: int| 0 <= i < s.len() implies (#[trigger] branches_view(s)[i])
            == branch_view(s[i]) by {
            if i < s.len() - 1 {
                assert(s.drop_last()[i] == s[i]);
                assert(branches_view(s)[i] == branches_view(s.drop_last())[i]);
            } else {
                assert(s.last() == s[i]);
            }
        }
    }
}

pub open spec fn is_digit(b: u8) -> bool {
    48 <= b && b <= 57
}

pub open spec fn pow10(k: nat) -> nat
    decreases k,
{
    if k == 0 {
        1
    } else {
        10 * pow10((k - 1) as nat)
    }
}

/// Some canonical decimal numeral that extends the digits denoting `v`
/// still lies in `[lo, hi]`: appending `k` more digits reaches exactly the
/// values `v * 10^k .. (v + 1) * 10^k - 1`, and one such window (including
/// `k == 0`, the numeral as it stands) must meet the range. Meaningful for
/// `v >= 1`; the numeral `0` admits no extension and is handled apart.
pub open spec fn range_reachable(lo: u64, hi: u64, v: u64) -> bool {
    exists|k: nat| v * pow10(k) <= hi && (v + 1) * pow10(k) - 1 >= lo
}

pub proof fn lemma_pow10_pos(k: nat)
    ensures
        pow10(k) >= 1,
    decreases k,
{
    if k > 0 {
        lemma_pow10_pos((k - 1) as nat);
    }
}

pub proof fn lemma_pow10_mono(v: u64, k: nat, j: nat)
    requires
        v >= 1,
        k <= j,
    ensures
        v * pow10(k) <= v * pow10(j),
    decreases j - k,
{
    if j > k {
        lemma_pow10_mono(v, k, (j - 1) as nat);
        lemma_pow10_pos((j - 1) as nat);
        assert(pow10(j) == 10 * pow10((j - 1) as nat));
        assert(v * pow10(j) == 10 * (v * pow10((j - 1) as nat))) by (nonlinear_arith)
            requires
                pow10(j) == 10 * pow10((j - 1) as nat),
        ;
    }
}

/// Decides `range_reachable` for a nonzero accumulated value, by widening
/// the window one digit at a time until it passes the upper bound.
#[verifier::loop_isolation(false)]
fn reach(lo: u64, hi: u64, v: u64) -> (r: bool)
    requires
        1 <= v,
    ensures
        r == range_reachable(lo, hi, v),
{
    let mut m = v;
    let mut p: u64 = 1;
    let ghost mut k: nat = 0;
    proof {
        assert(pow10(0) == 1);
        assert(v * pow10(0) == v) by (nonlinear_arith)
            requires
                pow10(0) == 1,
        ;
    }
    loop
        invariant
            1 <= v,
            1 <= p <= m,
            m == v * pow10(k),
            p == pow10(k),
            forall|j: nat|
                j < k ==> !(v * pow10(j) <= hi && (v + 1) * pow10(j) - 1 >= lo),
        decreases hi - m,
    {
        if m > hi {
            proof {
                assert forall|j: nat|
                    !(v * pow10(j) <= hi && (v + 1) * pow10(j) - 1 >= lo) by {
                    if j >= k {
                        lemma_pow10_mono(v, k, j);
                    }
                }
            }
            return false;
        }
        if m >= lo {
            proof {
                assert((v + 1) * pow10(k) == v * pow10(k) + pow10(k)) by (nonlinear_arith);
                assert(v * pow10(k) <= hi && (v + 1) * pow10(k) - 1 >= lo);
            }
            return true;
        }
        if lo - m <= p - 1 {
            proof {
                assert((v + 1) * pow10(k) == v * pow10(k) + pow10(k)) by (nonlinear_arith);
                assert(v * pow10(k) <= hi && (v + 1) * pow10(k) - 1 >= lo);
            }
            return true;
        }
        proof {
            assert((v + 1) * pow10(k) == v * pow10(k) + pow10(k)) by (nonlinear_arith);
            assert(!(v * pow10(k) <= hi && (v + 1) * pow10(k) - 1 >= lo));
        }
        if m > hi / 10 {
            proof {
                assert(10 * m > hi);
                assert forall|j: nat|
                    !(v * pow10(j) <= hi && (v + 1) * pow10(j) - 1 >= lo) by {
                    if j > k {
                        lemma_pow10_mono(v, (k + 1) as nat, j);
                        assert(pow10((k + 1) as nat) == 10 * pow10(k));
                        assert(v * pow10((k + 1) as nat) == 10 * (v * pow10(k)))
                            by (nonlinear_arith)
                            requires
                                pow10((k + 1) as nat) == 10 * pow10(k),
                        ;
                    }
                }
            }
            return false;
        }
        proof {
            assert((hi / 10) * 10 <= hi);
            assert(m * 10 <= (hi / 10) * 10) by (nonlinear_arith)
                requires
                    m <= hi / 10,
            ;
            assert(pow10((k + 1) as nat) == 10 * pow10(k));
            assert(v * pow10((k + 1) as nat) == 10 * (v * pow10(k))) by (nonlinear_arith)
                requires
                    pow10((k + 1) as nat) == 10 * pow10(k),
            ;
        }
        m = m * 10;
        p = p * 10;
        proof {
            k = k + 1;
        }
    }
}

/// A live branch consumes the byte when it is the next byte of its literal.
pub open spec fn branch_matches(br: BranchV, b: u8) -> bool {
    0 <= br.pos < br.lit.len() && br.lit[br.pos] == b
}

pub open spec fn branch_step(br: BranchV) -> BranchV {
    BranchV { tag: br.tag, lit: br.lit, pos: br.pos + 1, next: br.next }
}

/// The branches that survive one byte, each advanced past it.
pub open spec fn step_branches(branches: Seq<BranchV>, b: u8) -> Seq<BranchV>
    decreases branches,
{
    if branches.len() == 0 {
        Seq::empty()
    } else {
        let rest = step_branches(branches.drop_last(), b);
        if branch_matches(branches.last(), b) {
            rest.push(branch_step(branches.last()))
        } else {
            rest
        }
    }
}

/// A branch whose whole discriminant literal has been consumed.
pub open spec fn branch_complete(br: BranchV) -> bool {
    br.pos == br.lit.len()
}

/// Index of the first completed branch, or -1 when none is complete.
pub open spec fn first_complete(s: Seq<BranchV>) -> int
    decreases s,
{
    if s.len() == 0 {
        -1
    } else if branch_complete(s[0]) {
        0
    } else {
        let r = first_complete(s.drop_first());
        if r < 0 {
            -1
        } else {
            r + 1
        }
    }
}

/// Outcome of one byte on one node: the successor node with the atoms the
/// byte completed, or a rejection.
pub enum StepV {
    Keep { node: PNodeV, emit: Seq<AtomV> },
    Stop { err: ParseError },
}

/// The transition of the incremental parser on one byte, stated on the
/// mathematical node. Digits extend a ranged integer and reject as soon as
/// no numeral in the range is still reachable — past the upper bound, or
/// with every decimal extension falling short of or overshooting it; a
/// delimiter after a complete in-range numeral is handed on to the
/// continuation; string bodies count their bytes against the length bounds
/// and walk the pattern automaton one transition per byte; a union dispatch
/// keeps every branch whose discriminant literal still matches, and
/// collapses to a single continuation the moment one literal completes.
pub open spec fn spec_step(n: PNodeV, b: u8) -> StepV
    decreases n,
{
    match n {
        PNodeV::Done => StepV::Stop { err: ParseError::UnexpectedByte(b) },
        PNodeV::Lit { bytes, pos, next } => {
            if 0 <= pos < bytes.len() && bytes[pos] == b {
                if pos + 1 == bytes.len() {
                    StepV::Keep { node: *next, emit: Seq::empty() }
                } else {
                    StepV::Keep {
                        node: PNodeV::Lit { bytes, pos: pos + 1, next },
                        emit: Seq::empty(),
                    }
                }
            } else {
                StepV::Stop { err: ParseError::UnexpectedByte(b) }
            }
        },
        PNodeV::Num { lo, hi, acc, next } => {
            if is_digit(b) {
                let d = (b - 48) as u64;
                match acc {
                    Option::None => {
                        if d == 0 {
                            if lo == 0 {
                                StepV::Keep {
                                    node: PNodeV::Num { lo, hi, acc: Option::Some(0u64), next },
                                    emit: Seq::empty(),
                                }
                            } else {
                                StepV::Stop { err: ParseError::RangeViolation }
                            }
                        } else if d > hi || !range_reachable(lo, hi, d) {
                            StepV::Stop { err: ParseError::RangeViolation }
                        } else {
                            StepV::Keep {
                                node: PNodeV::Num { lo, hi, acc: Option::Some(d), next },
                                emit: Seq::empty(),
                            }
                        }
                    },
                    Option::Some(v) => {
                        if v == 0 {
                            StepV::Stop { err: ParseError::UnexpectedByte(b) }
                        } else if v * 10 + d > hi || !range_reachable(
                            lo,
                            hi,
                            (v * 10 + d) as u64,
                        ) {
                            StepV::Stop { err: ParseError::RangeViolation }
                        } else {
                            StepV::Keep {
                                node: PNodeV::Num {
                                    lo,
                                    hi,
                                    acc: Option::Some((v * 10 + d) as u64),
                                    next,
                                },
                                emit: Seq::empty(),
                            }
                        }
                    },
                }
            } else {
                match acc {
                    Option::Some(v) => {
                        if lo <= v && v <= hi {
                            match spec_step(*next, b) {
                                StepV::Keep { node, emit } => StepV::Keep {
                                    node,
                                    emit: seq![AtomV::IntAtom(v)] + emit,
                                },
                                StepV::Stop { err } => StepV::Stop { err },
                            }
                        } else {
                            StepV::Stop { err: ParseError::RangeViolation }
                        }
                    },
                    Option::None => StepV::Stop { err: ParseError::UnexpectedByte(b) },
                }
            }
        },
        PNodeV::Txt { min, max, inside, body, next } => {
            if !inside {
                if b == 34 {
                    StepV::Keep {
                        node: PNodeV::Txt { min, max, inside: true, body, next },
                        emit: Seq::empty(),
                    }
                } else {
                    StepV::Stop { err: ParseError::UnexpectedByte(b) }
                }
            } else if b == 34 {
                if body.len() >= min {
                    StepV::Keep { node: *next, emit: seq![AtomV::TextAtom(body)] }
                } else {
                    StepV::Stop { err: ParseError::LengthViolation }
                }
            } else if b == 92 {
                StepV::Stop { err: ParseError::UnexpectedByte(b) }
            } else if body.len() >= max {
                StepV::Stop { err: ParseError::LengthViolation }
            } else {
                StepV::Keep {
                    node: PNodeV::Txt { min, max, inside, body: body.push(b), next },
                    emit: Seq::empty(),
                }
            }
        },
        PNodeV::Pat { dfa, state, inside, body, next } => {
            if !inside {
                if b == 34 {
                    StepV::Keep {
                        node: PNodeV::Pat { dfa, state, inside: true, body, next },
                        emit: Seq::empty(),
                    }
                } else {
                    StepV::Stop { err: ParseError::UnexpectedByte(b) }
                }
            } else if b == 34 {
                if 0 <= state < dfa.states() && dfa.accepting[state] {
                    StepV::Keep { node: *next, emit: seq![AtomV::TextAtom(body)] }
                } else {
                    StepV::Stop { err: ParseError::PatternMismatch }
                }
            } else if b == 92 {
                StepV::Stop { err: ParseError::UnexpectedByte(b) }
            } else {
                if 0 <= state < dfa.states() && dfa.delta.len() == dfa.states() && dfa.delta[
                    state].len() == 256 {
                    let t = dfa.delta[state][b as int];
                    if t < dfa.states() {
                        StepV::Keep {
                            node: PNodeV::Pat {
                                dfa,
                                state: t as int,
                                inside,
                                body: body.push(b),
                                next,
                            },
                            emit: Seq::empty(),
                        }
                    } else {
                        StepV::Stop { err: ParseError::PatternMismatch }
                    }
                } else {
                    StepV::Stop { err: ParseError::PatternMismatch }
                }
            }
        },
        PNodeV::Alts { branches } => {
            let survivors = step_branches(branches, b);
            if survivors.len() == 0 {
                StepV::Stop { err: ParseError::UnknownVariantTag }
            } else {
                let ci = first_complete(survivors);
                if ci >= 0 {
                    StepV::Keep {
                        node: survivors[ci].next,
                        emit: seq![AtomV::ChoiceAtom(survivors[ci].tag)],
                    }
                } else {
                    StepV::Keep { node: PNodeV::Alts { branches: survivors }, emit: Seq::empty() }
                }
            }
        },
    }
}

/// Ranged integers reject eagerly: the moment one more digit pushes the
/// accumulated value past the upper bound, the byte is rejected with a
/// range violation — never deferred to the closing delimiter.
pub proof fn lemma_range_early_rejection(n: PNodeV, b: u8)
    requires
        n matches PNodeV::Num { hi, acc: Option::Some(v), .. } && v > 0 && is_digit(b) && v * 10 + (
        b - 48) > hi,
    ensures
        spec_step(n, b) == (StepV::Stop { err: ParseError::RangeViolation }),
{
}

/// Ranged integers reject as early as a byte makes the range unreachable,
/// against either bound: a digit is accepted exactly while the new numeral
/// stays under the upper bound and some decimal extension of it (including
/// the numeral itself) still lies in the range; otherwise the byte is
/// rejected with a range violation on the spot.
pub proof fn lemma_range_digit_viability(n: PNodeV, b: u8)
    requires
        n matches PNodeV::Num { lo, hi, acc: Option::Some(v), .. } && v >= 1 && is_digit(b),
    ensures
        spec_step(n, b) is Keep <==> (n->acc->0 * 10 + (b - 48) <= n->hi && range_reachable(
            n->lo,
            n->hi,
            (n->acc->0 * 10 + (b - 48)) as u64,
        )),
        !(spec_step(n, b) is Keep) ==> spec_step(n, b) == (StepV::Stop {
            err: ParseError::RangeViolation,
        }),
{
}

/// The whole session state: the live node and the atoms recorded so far.
pub struct StateV {
    pub node: PNodeV,
    pub atoms: Seq<AtomV>,
}

/// The state of one in-flight parse session, exclusively owned by its
/// caller and never shared across sessions.
pub struct ParserState {
    pub node: PNode,
    pub atoms: Vec<Atom>,
}

impl View for ParserState {
    type V = StateV;

    open spec fn view(&self) -> StateV {
        StateV { node: pnode_view(self.node), atoms: atoms_view(self.atoms@) }
    }
}

/// One byte against a whole session state.
pub open spec fn spec_advance(sv: StateV, b: u8) -> Result<StateV, ParseError> {
    match spec_step(sv.node, b) {
        StepV::Keep { node, emit } => Result::Ok(StateV { node, atoms: sv.atoms + emit }),
        StepV::Stop { err } => Result::Err(err),
    }
}

/// Outcome of feeding a byte sequence: still going, or stopped with the
/// error of the first rejected byte.
pub enum FeedV {
    Going(StateV),
    Stopped(ParseError),
}

/// Iterated `spec_advance` over a byte sequence, front to back.
pub open spec fn spec_feed(sv: StateV, s: Seq<u8>) -> FeedV
    decreases s.len(),
{
    if s.len() == 0 {
        FeedV::Going(sv)
    } else {
        match spec_advance(sv, s[0]) {
            Result::Ok(sv2) => spec_feed(sv2, s.drop_first()),
            Result::Err(e) => FeedV::Stopped(e),
        }
    }
}

/// Determinism under chunking: feeding a buffer split at any point gives
/// exactly the state of feeding it whole — so byte-at-a-time feeding and
/// block feeding of the same bytes always agree, and a rejection is final.
pub proof fn lemma_feed_chunks(sv: StateV, s1: Seq<u8>, s2: Seq<u8>)
    ensures
        spec_feed(sv, s1 + s2) == (match spec_feed(sv, s1) {
            FeedV::Going(mid) => spec_feed(mid, s2),
            FeedV::Stopped(e) => FeedV::Stopped(e),
        }),
    decreases s1.len(),
{
    if s1.len() == 0 {
        assert(s1 + s2 =~= s2);
    } else {
        assert((s1 + s2)[0] == s1[0]);
        assert((s1 + s2).drop_first() =~= s1.drop_first() + s2);
        match spec_advance(sv, s1[0]) {
            Result::Ok(sv2) => {
                lemma_feed_chunks(sv2, s1.drop_first(), s2);
            },
            Result::Err(e) => {},
        }
    }
}

/// The compiled parser of one type, continued by `k`: ranged or free
/// integers and strings for primitives, a brace-and-key literal chain for
/// records, and a discriminant dispatch for unions — bare quoted names when
/// every variant is payload-free, the tagged object encoding otherwise.
pub open spec fn parser_of(t: TdV, k: PNodeV) -> PNodeV
    decreases t, 2int,
{
    match t {
        TdV::Primitive { kind: PrimitiveKind::Integer, constraint } => {
            let bd = match constraint {
                Option::Some(ConstraintV::Range(bd)) => bd,
                _ => crate::desc::Bounds { min: 0u64, max: u64::MAX },
            };
            PNodeV::Num { lo: bd.min, hi: bd.max, acc: Option::None, next: Box::new(k) }
        },
        TdV::Primitive { kind: PrimitiveKind::Text, constraint } => {
            match constraint {
                Option::Some(ConstraintV::Length(bd)) => PNodeV::Txt {
                    min: bd.min,
                    max: bd.max,
                    inside: false,
                    body: Seq::empty(),
                    next: Box::new(k),
                },
                Option::Some(ConstraintV::Pattern(d)) => PNodeV::Pat {
                    dfa: d,
                    state: d.start,
                    inside: false,
                    body: Seq::empty(),
                    next: Box::new(k),
                },
                _ => PNodeV::Txt {
                    min: 0u64,
                    max: u64::MAX,
                    inside: false,
                    body: Seq::empty(),
                    next: Box::new(k),
                },
            }
        },
        TdV::Record { fields } => record_parser(fields, k),
        TdV::Union { variants, tag_field, content_field } => {
            if all_unit(variants) {
                PNodeV::Alts { branches: unit_branches(variants, k) }
            } else {
                let tagk = match tag_field {
                    Option::Some(tk) => tk,
                    Option::None => mixed_tag_key(),
                };
                let contentk = match content_field {
                    Option::Some(ck) => ck,
                    Option::None => mixed_content_key(),
                };
                PNodeV::Lit {
                    bytes: seq![123u8] + quoted(tagk) + seq![58u8, 32u8],
                    pos: 0,
                    next: Box::new(
                        PNodeV::Alts { branches: variant_branches(variants, contentk, k) },
                    ),
                }
            }
        },
    }
}

/// The parser of a record shape: an opening brace, then each field's quoted
/// key, a colon and space, the field's value, comma-space separated, and a
/// closing brace.
pub open spec fn record_parser(fields: Seq<FieldV>, k: PNodeV) -> PNodeV
    decreases fields, 1int,
{
    PNodeV::Lit { bytes: seq![123u8], pos: 0, next: Box::new(rest_fields(fields, true, k)) }
}

pub open spec fn rest_fields(fields: Seq<FieldV>, first: bool, k: PNodeV) -> PNodeV
    decreases fields, 0int,
{
    if fields.len() == 0 {
        PNodeV::Lit { bytes: seq![125u8], pos: 0, next: Box::new(k) }
    } else {
        let sep: Seq<u8> = if first {
            Seq::empty()
        } else {
            seq![44u8, 32u8]
        };
        PNodeV::Lit {
            bytes: sep + quoted(fields[0].serialized_name) + seq![58u8, 32u8],
            pos: 0,
            next: Box::new(
                parser_of(fields[0].ty, rest_fields(fields.drop_first(), false, k)),
            ),
        }
    }
}

/// One branch per variant of a payload-free union: the bare quoted
/// discriminant, then the continuation.
pub open spec fn unit_branches(variants: Seq<VariantV>, k: PNodeV) -> Seq<BranchV>
    decreases variants, 0int,
{
    if variants.len() == 0 {
        Seq::empty()
    } else {
        unit_branches(variants.drop_last(), k).push(
            BranchV {
                tag: (variants.len() - 1) as usize,
                lit: quoted(variants.last().name),
                pos: 0,
                next: k,
            },
        )
    }
}

/// What follows one variant's discriminant under the object encoding: a
/// closing brace for a payload-free variant, or the content key and the
/// payload parser before the closing brace.
pub open spec fn variant_rest(v: VariantV, contentk: Seq<u8>, k: PNodeV) -> PNodeV
    decreases v, 1int,
{
    match v.kind {
        VariantKindV::Unit => PNodeV::Lit { bytes: seq![125u8], pos: 0, next: Box::new(k) },
        VariantKindV::Tuple(inner) => PNodeV::Lit {
            bytes: seq![44u8, 32u8] + quoted(contentk) + seq![58u8, 32u8],
            pos: 0,
            next: Box::new(
                parser_of(
                    *inner,
                    PNodeV::Lit { bytes: seq![125u8], pos: 0, next: Box::new(k) },
                ),
            ),
        },
        VariantKindV::Record(fields) => PNodeV::Lit {
            bytes: seq![44u8, 32u8] + quoted(contentk) + seq![58u8, 32u8],
            pos: 0,
            next: Box::new(
                record_parser(
                    fields,
                    PNodeV::Lit { bytes: seq![125u8], pos: 0, next: Box::new(k) },
                ),
            ),
        },
    }
}

/// One branch per variant of a union under the object encoding.
pub open spec fn variant_branches(variants: Seq<VariantV>, contentk: Seq<u8>, k: PNodeV) -> Seq<
    BranchV,
>
    decreases variants, 0int,
{
    if variants.len() == 0 {
        Seq::empty()
    } else {
        variant_branches(variants.drop_last(), contentk, k).push(
            BranchV {
                tag: (variants.len() - 1) as usize,
                lit: quoted(variants.last().name),
                pos: 0,
                next: variant_rest(variants.last(), contentk, k),
            },
        )
    }
}

/// Byte-for-byte copy of a byte vector.
fn copy_vec(src: &Vec<u8>) -> (r: Vec<u8>)
    ensures
        r@ == src@,
{
    let mut out: Vec<u8> = Vec::new();
    let mut i: usize = 0;
    while i < src.len()
        invariant
            0 <= i <= src.len(),
            out@ == src@.subrange(0, i as int),
        decreases src.len() - i,
    {
        out.push(src[i]);
        assert(out@ =~= src@.subrange(0, i as int + 1));
        i = i + 1;
    }
    proof {
        assert(out@ =~= src@);
    }
    out
}

/// A quoted copy of a name.
fn quoted_vec(name: &Vec<u8>) -> (r: Vec<u8>)
    ensures
        r@ == quoted(name@),
{
    let mut out: Vec<u8> = Vec::new();
    out.push(34u8);
    let mut i: usize = 0;
    while i < name.len()
        invariant
            0 <= i <= name.len(),
            out@ == seq![34u8] + name@.subrange(0, i as int),
        decreases name.len() - i,
    {
        out.push(name[i]);
        assert(out@ =~= seq![34u8] + name@.subrange(0, i as int + 1));
        i = i + 1;
    }
    out.push(34u8);
    proof {
        assert(name@.subrange(0, name@.len() as int) =~= name@);
        assert(out@ =~= quoted(name@));
    }
    out
}

/// Structure-preserving copy of a compiled parser node, so that one
/// compiled parser can continue several union branches.
#[verifier::loop_isolation(false)]
fn clone_node(n: &PNode) -> (r: PNode)
    ensures
        pnode_view(r) == pnode_view(*n),
    decreases *n,
{
    match n {
        PNode::Done => PNode::Done,
        PNode::Lit { bytes, pos, next } => PNode::Lit {
            bytes: copy_vec(bytes),
            pos: *pos,
            next: Box::new(clone_node(next)),
        },
        PNode::Num { lo, hi, acc, next } => PNode::Num {
            lo: *lo,
            hi: *hi,
            acc: *acc,
            next: Box::new(clone_node(next)),
        },
        PNode::Txt { min, max, inside, body, next } => PNode::Txt {
            min: *min,
            max: *max,
            inside: *inside,
            body: copy_vec(body),
            next: Box::new(clone_node(next)),
        },
        PNode::Pat { dfa, state, inside, body, next } => PNode::Pat {
            dfa: crate::schema::dfa_copy(dfa),
            state: *state,
            inside: *inside,
            body: copy_vec(body),
            next: Box::new(clone_node(next)),
        },
        PNode::Alts { branches } => {
            proof {
                lemma_branches_view_index(branches@);
            }
            let ghost bv = branches_view(branches@);
            let mut out: Vec<Branch> = Vec::new();
            let n2 = branches.len();
            let mut i: usize = 0;
            while i < n2
                invariant
                    0 <= i <= n2,
                    n2 == branches@.len(),
                    bv == branches_view(branches@),
                    bv.len() == n2,
                    forall|j: int| 0 <= j < branches@.len() ==> (#[trigger] branches_view(
                        branches@,
                    )[j]) == branch_view(branches@[j]),
                    out@.len() == i,
                    forall|j: int| 0 <= j < i ==> branch_view(#[trigger] out@[j]) == bv[j],
                decreases n2 - i,
            {
                proof {
                    vstd::seq::axiom_seq_index_decreases(branches@, i as int);
                    assert(decreases_to!(*n => (*n)->Alts_branches));
                    assert(decreases_to!(*n => branches@[i as int]));
                }
                let br = &branches[i];
                let copy = Branch {
                    tag: br.tag,
                    lit: copy_vec(&br.lit),
                    pos: br.pos,
                    next: clone_branch_next(br),
                };
                out.push(copy);
                i = i + 1;
            }
            let r = PNode::Alts { branches: out };
            proof {
                lemma_branches_view_index(r->Alts_branches@);
                assert(branches_view(r->Alts_branches@) =~~= bv);
            }
            r
        },
    }
}

/// Copies the continuation of one branch.
fn clone_branch_next(br: &Branch) -> (r: PNode)
    ensures
        pnode_view(r) == pnode_view(br.next),
    decreases *br,
{
    clone_node(&br.next)
}

/// Builds the parser of one type description, continued by `k`, mirroring
/// `parser_of` exactly.
#[verifier::loop_isolation(false)]
#[verifier::rlimit(100)]
fn build_node(td: &TypeDescription, k: PNode) -> (r: PNode)
    ensures
        pnode_view(r) == parser_of(td@, pnode_view(k)),
    decreases *td, 2int, 0int,
{
    let ghost kv0 = pnode_view(k);
    match td {
        TypeDescription::Primitive { kind, constraint } => {
            proof {
                assert(td@ matches TdV::Primitive { kind: kk, constraint: cv } && kk == *kind
                    && cv == match constraint {
                        Option::Some(c) => Option::Some(c@),
                        Option::None => Option::None,
                    });
            }
            match kind {
                PrimitiveKind::Integer => {
                    let bd: crate::desc::Bounds = match constraint {
                        Option::Some(crate::desc::Constraint::Range(bd)) => *bd,
                        _ => crate::desc::Bounds { min: 0u64, max: u64::MAX },
                    };
                    PNode::Num { lo: bd.min, hi: bd.max, acc: Option::None, next: Box::new(k) }
                },
                PrimitiveKind::Text => {
                    match constraint {
                        Option::Some(crate::desc::Constraint::Length(bd)) => PNode::Txt {
                            min: bd.min,
                            max: bd.max,
                            inside: false,
                            body: Vec::new(),
                            next: Box::new(k),
                        },
                        Option::Some(crate::desc::Constraint::Pattern(d)) => PNode::Pat {
                            dfa: crate::schema::dfa_copy(d),
                            state: d.start,
                            inside: false,
                            body: Vec::new(),
                            next: Box::new(k),
                        },
                        _ => PNode::Txt {
                            min: 0u64,
                            max: u64::MAX,
                            inside: false,
                            body: Vec::new(),
                            next: Box::new(k),
                        },
                    }
                },
            }
        },
        TypeDescription::Record { fields } => {
            proof {
                crate::desc::lemma_fields_view_index(fields@);
                assert(td@ matches TdV::Record { fields: fv } && fv == crate::desc::fields_view(
                    fields@,
                ));
                assert(decreases_to!(*td => (*td)->Record_fields));
            }
            let r = build_record(fields, k);
            proof {
                assert(pnode_view(r) == parser_of(td@, kv0));
            }
            r
        },
        TypeDescription::Union { variants, tag_field, content_field } => {
            proof {
                crate::desc::lemma_variants_view_index(variants@);
                assert(td@ matches TdV::Union { variants: vv, tag_field: tf, content_field: cf }
                    && vv == crate::desc::variants_view(variants@) && tf == (match tag_field {
                    Option::Some(t) => Option::Some(t@),
                    Option::None => Option::None,
                }) && cf == (match content_field {
                    Option::Some(c) => Option::Some(c@),
                    Option::None => Option::None,
                }));
            }
            let ghost vv = crate::desc::variants_view(variants@);
            let n = variants.len();
            let mut unit_only = true;
            let mut i: usize = 0;
            while i < n
                invariant
                    0 <= i <= n,
                    unit_only == (forall|j: int| 0 <= j < i ==> (#[trigger] vv[j].kind) is Unit),
                decreases n - i,
            {
                if !matches!(&variants[i].kind, crate::desc::VariantKind::Unit) {
                    assert(!(vv[i as int].kind is Unit));
                    unit_only = false;
                }
                i = i + 1;
            }
            if unit_only {
                let mut branches: Vec<Branch> = Vec::new();
                let mut j: usize = 0;
                let ghost kv = pnode_view(k);
                while j < n
                    invariant
                        0 <= j <= n,
                        branches_view(branches@) =~~= unit_branches(
                            vv.subrange(0, j as int),
                            kv,
                        ),
                    decreases n - j,
                {
                    let br = Branch {
                        tag: j,
                        lit: quoted_vec(&variants[j].name),
                        pos: 0,
                        next: clone_node(&k),
                    };
                    let ghost before = branches@;
                    branches.push(br);
                    proof {
                        assert(branches@.drop_last() =~= before);
                        assert(branches_view(branches@) == branches_view(before).push(
                            branch_view(branches@.last()),
                        ));
                        assert(vv.subrange(0, j as int + 1).drop_last() =~= vv.subrange(
                            0,
                            j as int,
                        ));
                        assert(vv.subrange(0, j as int + 1).last() == vv[j as int]);
                        assert(branch_view(branches@.last()) == (BranchV {
                            tag: j,
                            lit: quoted(vv[j as int].name),
                            pos: 0,
                            next: kv,
                        }));
                        assert(branches_view(branches@) =~~= unit_branches(
                            vv.subrange(0, j as int + 1),
                            kv,
                        ));
                    }
                    j = j + 1;
                }
                proof {
                    assert(vv.subrange(0, n as int) =~= vv);
                }
                let r = PNode::Alts { branches };
                proof {
                    assert(pnode_view(r) == parser_of(td@, kv0));
                }
                r
            } else {
                let tagk: Vec<u8> = match tag_field {
                    Option::Some(tk) => copy_vec(tk),
                    Option::None => crate::schema::mixed_tag_vec(),
                };
                let contentk: &Vec<u8> = match content_field {
                    Option::Some(ck) => ck,
                    Option::None => &crate::schema::mixed_content_vec(),
                };
                let ghost kv = pnode_view(k);
                let ghost ckv = contentk@;
                let mut branches: Vec<Branch> = Vec::new();
                let mut j: usize = 0;
                while j < n
                    invariant
                        0 <= j <= n,
                        contentk@ == ckv,
                        branches_view(branches@) =~~= variant_branches(
                            vv.subrange(0, j as int),
                            ckv,
                            kv,
                        ),
                    decreases n - j,
                {
                    proof {
                        vstd::seq::axiom_seq_index_decreases(variants@, j as int);
                        assert(decreases_to!(*td => (*td)->Union_variants));
                        assert(decreases_to!(*td => variants@[j as int]));
                    }
                    let rest = build_variant_rest(&variants[j], contentk, clone_node(&k));
                    let br = Branch {
                        tag: j,
                        lit: quoted_vec(&variants[j].name),
                        pos: 0,
                        next: rest,
                    };
                    let ghost before = branches@;
                    branches.push(br);
                    proof {
                        assert(branches@.drop_last() =~= before);
                        assert(branches_view(branches@) == branches_view(before).push(
                            branch_view(branches@.last()),
                        ));
                        assert(vv.subrange(0, j as int + 1).drop_last() =~= vv.subrange(
                            0,
                            j as int,
                        ));
                        assert(vv.subrange(0, j as int + 1).last() == vv[j as int]);
                        assert(branches_view(branches@) =~~= variant_branches(
                            vv.subrange(0, j as int + 1),
                            ckv,
                            kv,
                        ));
                    }
                    j = j + 1;
                }
                proof {
                    assert(vv.subrange(0, n as int) =~= vv);
                }
                let mut bytes: Vec<u8> = Vec::new();
                bytes.push(123u8);
                let mut t: usize = 0;
                bytes.push(34u8);
                while t < tagk.len()
                    invariant
                        0 <= t <= tagk.len(),
                        bytes@ == seq![123u8, 34u8] + tagk@.subrange(0, t as int),
                    decreases tagk.len() - t,
                {
                    bytes.push(tagk[t]);
                    assert(bytes@ =~= seq![123u8, 34u8] + tagk@.subrange(0, t as int + 1));
                    t = t + 1;
                }
                bytes.push(34u8);
                bytes.push(58u8);
                bytes.push(32u8);
                proof {
                    assert(tagk@.subrange(0, tagk@.len() as int) =~= tagk@);
                    assert(bytes@ =~= seq![123u8] + quoted(tagk@) + seq![58u8, 32u8]);
                }
                let r = PNode::Lit { bytes, pos: 0, next: Box::new(PNode::Alts { branches }) };
                proof {
                    reveal_with_fuel(pnode_view, 3);
                    assert(!all_unit(vv));
                    assert(branches_view(r->Lit_next->Alts_branches@) == variant_branches(
                        vv,
                        ckv,
                        kv,
                    ));
                    assert(ckv == (match td@->Union_content_field {
                        Option::Some(ck) => ck,
                        Option::None => mixed_content_key(),
                    }));
                    assert(tagk@ == (match td@->Union_tag_field {
                        Option::Some(tk) => tk,
                        Option::None => mixed_tag_key(),
                    }));
                    assert(pnode_view(r) == parser_of(td@, kv0));
                }
                r
            }
        },
    }
}

/// Builds the record-shape parser, mirroring `record_parser`.
fn build_record(fields: &Vec<FieldSpec>, k: PNode) -> (r: PNode)
    ensures
        pnode_view(r) == record_parser(crate::desc::fields_view(fields@), pnode_view(k)),
    decreases fields@, 1int, 0int,
{
    let mut open_brace: Vec<u8> = Vec::new();
    open_brace.push(123u8);
    proof {
        assert(open_brace@ =~= seq![123u8]);
        crate::desc::lemma_fields_view_index(fields@);
        assert(crate::desc::fields_view(fields@).subrange(
            0,
            fields@.len() as int,
        ) =~= crate::desc::fields_view(fields@));
    }
    PNode::Lit { bytes: open_brace, pos: 0, next: Box::new(build_rest_fields(fields, 0, k)) }
}

/// Builds the chain of field parsers from index `i` on, mirroring
/// `rest_fields` over the remaining fields.
#[verifier::loop_isolation(false)]
fn build_rest_fields(fields: &Vec<FieldSpec>, i: usize, k: PNode) -> (r: PNode)
    requires
        i <= fields@.len(),
    ensures
        pnode_view(r) == rest_fields(
            crate::desc::fields_view(fields@).subrange(i as int, fields@.len() as int),
            i == 0,
            pnode_view(k),
        ),
    decreases fields@, 0int, fields@.len() - i,
{
    proof {
        crate::desc::lemma_fields_view_index(fields@);
    }
    let ghost fv = crate::desc::fields_view(fields@);
    let ghost tail = fv.subrange(i as int, fields@.len() as int);
    let n = fields.len();
    if i == n {
        let mut close_brace: Vec<u8> = Vec::new();
        close_brace.push(125u8);
        proof {
            assert(close_brace@ =~= seq![125u8]);
            assert(tail.len() == 0);
        }
        PNode::Lit { bytes: close_brace, pos: 0, next: Box::new(k) }
    } else {
        proof {
            vstd::seq::axiom_seq_index_decreases(fields@, i as int);
            assert(decreases_to!(fields@ => fields@[i as int]));
            assert(tail[0] == fv[i as int]);
            assert(tail.drop_first() =~= fv.subrange(i as int + 1, fields@.len() as int));
        }
        let inner = build_rest_fields(fields, i + 1, k);
        let value_node = build_node(&fields[i].ty, inner);
        let mut bytes: Vec<u8> = Vec::new();
        if i > 0 {
            bytes.push(44u8);
            bytes.push(32u8);
        }
        bytes.push(34u8);
        let ghost sep: Seq<u8> = if i == 0 {
            Seq::empty()
        } else {
            seq![44u8, 32u8]
        };
        let mut t: usize = 0;
        let name = &fields[i].serialized_name;
        while t < name.len()
            invariant
                0 <= t <= name.len(),
                bytes@ == sep + seq![34u8] + name@.subrange(0, t as int),
            decreases name.len() - t,
        {
            bytes.push(name[t]);
            assert(bytes@ =~= sep + seq![34u8] + name@.subrange(0, t as int + 1));
            t = t + 1;
        }
        bytes.push(34u8);
        bytes.push(58u8);
        bytes.push(32u8);
        proof {
            assert(name@.subrange(0, name@.len() as int) =~= name@);
            assert(bytes@ =~= sep + quoted(name@) + seq![58u8, 32u8]);
            assert(fv[i as int].serialized_name == name@);
        }
        PNode::Lit { bytes, pos: 0, next: Box::new(value_node) }
    }
}

/// Builds what follows one variant's discriminant, mirroring
/// `variant_rest`.
fn build_variant_rest(v: &crate::desc::VariantSpec, contentk: &Vec<u8>, k: PNode) -> (r: PNode)
    ensures
        pnode_view(r) == variant_rest(crate::desc::variant_view(*v), contentk@, pnode_view(k)),
    decreases *v, 1int, 0int,
{
    match &v.kind {
        crate::desc::VariantKind::Unit => {
            let mut close_brace: Vec<u8> = Vec::new();
            close_brace.push(125u8);
            proof {
                assert(close_brace@ =~= seq![125u8]);
            }
            PNode::Lit { bytes: close_brace, pos: 0, next: Box::new(k) }
        },
        crate::desc::VariantKind::Tuple(inner) => {
            let mut close_brace: Vec<u8> = Vec::new();
            close_brace.push(125u8);
            proof {
                assert(close_brace@ =~= seq![125u8]);
            }
            let after = PNode::Lit { bytes: close_brace, pos: 0, next: Box::new(k) };
            let value_node = build_node(inner, after);
            let bytes = content_prefix(contentk);
            PNode::Lit { bytes, pos: 0, next: Box::new(value_node) }
        },
        crate::desc::VariantKind::Record(fields) => {
            let mut close_brace: Vec<u8> = Vec::new();
            close_brace.push(125u8);
            proof {
                assert(close_brace@ =~= seq![125u8]);
            }
            let after = PNode::Lit { bytes: close_brace, pos: 0, next: Box::new(k) };
            let record_node = build_record(fields, after);
            let bytes = content_prefix(contentk);
            PNode::Lit { bytes, pos: 0, next: Box::new(record_node) }
        },
    }
}

/// The literal between a discriminant and its payload: a comma-space, the
/// quoted content key, a colon and a space.
fn content_prefix(contentk: &Vec<u8>) -> (r: Vec<u8>)
    ensures
        r@ == seq![44u8, 32u8] + quoted(contentk@) + seq![58u8, 32u8],
{
    let mut bytes: Vec<u8> = Vec::new();
    bytes.push(44u8);
    bytes.push(32u8);
    bytes.push(34u8);
    let mut t: usize = 0;
    while t < contentk.len()
        invariant
            0 <= t <= contentk.len(),
            bytes@ == seq![44u8, 32u8, 34u8] + contentk@.subrange(0, t as int),
        decreases contentk.len() - t,
    {
        bytes.push(contentk[t]);
        assert(bytes@ =~= seq![44u8, 32u8, 34u8] + contentk@.subrange(0, t as int + 1));
        t = t + 1;
    }
    bytes.push(34u8);
    bytes.push(58u8);
    bytes.push(32u8);
    proof {
        assert(contentk@.subrange(0, contentk@.len() as int) =~= contentk@);
        assert(bytes@ =~= seq![44u8, 32u8] + quoted(contentk@) + seq![58u8, 32u8]);
    }
    bytes
}

pub proof fn lemma_first_complete_at(s: Seq<BranchV>, i: int)
    requires
        0 <= i < s.len(),
        branch_complete(s[i]),
        forall|j: int| 0 <= j < i ==> !branch_complete(#[trigger] s[j]),
    ensures
        first_complete(s) == i,
    decreases i,
{
    if i == 0 {
    } else {
        assert(!branch_complete(s[0]));
        assert(s.drop_first()[i - 1] == s[i]);
        assert forall|j: int| 0 <= j < i - 1 implies !branch_complete(
            #[trigger] s.drop_first()[j],
        ) by {
            assert(s.drop_first()[j] == s[j + 1]);
        }
        lemma_first_complete_at(s.drop_first(), i - 1);
    }
}

pub proof fn lemma_first_complete_none(s: Seq<BranchV>)
    requires
        forall|j: int| 0 <= j < s.len() ==> !branch_complete(#[trigger] s[j]),
    ensures
        first_complete(s) == -1,
    decreases s.len(),
{
    if s.len() > 0 {
        assert forall|j: int| 0 <= j < s.len() - 1 implies !branch_complete(
            #[trigger] s.drop_first()[j],
        ) by {
            assert(s.drop_first()[j] == s[j + 1]);
        }
        lemma_first_complete_none(s.drop_first());
    }
}

/// One byte against one node, mirroring `spec_step` exactly; on success the
/// completed atoms are appended to the trail.
#[verifier::loop_isolation(false)]
#[verifier::rlimit(100)]
fn step_node(n: PNode, b: u8, atoms: &mut Vec<Atom>) -> (r: Result<PNode, ParseError>)
    ensures
        r matches Ok(n2) ==> (spec_step(pnode_view(n), b) matches StepV::Keep { node, emit }
            && pnode_view(n2) == node && atoms_view(final(atoms)@) == atoms_view(old(atoms)@)
            + emit),
        r matches Err(e) ==> spec_step(pnode_view(n), b) == (StepV::Stop { err: e }),
    decreases n,
{
    let ghost nv = pnode_view(n);
    match n {
        PNode::Done => Result::Err(ParseError::UnexpectedByte(b)),
        PNode::Lit { bytes, pos, next } => {
            if pos < bytes.len() && bytes[pos] == b {
                if pos + 1 == bytes.len() {
                    proof {
                        assert(atoms_view(atoms@) =~= atoms_view(atoms@) + Seq::<AtomV>::empty());
                    }
                    Result::Ok(*next)
                } else {
                    proof {
                        assert(atoms_view(atoms@) =~= atoms_view(atoms@) + Seq::<AtomV>::empty());
                    }
                    Result::Ok(PNode::Lit { bytes, pos: pos + 1, next })
                }
            } else {
                Result::Err(ParseError::UnexpectedByte(b))
            }
        },
        PNode::Num { lo, hi, acc, next } => {
            if 48 <= b && b <= 57 {
                let d = (b - 48) as u64;
                match acc {
                    Option::None => {
                        if d == 0 {
                            if lo == 0 {
                                proof {
                                    assert(atoms_view(atoms@) =~= atoms_view(atoms@)
                                        + Seq::<AtomV>::empty());
                                }
                                Result::Ok(PNode::Num { lo, hi, acc: Option::Some(0u64), next })
                            } else {
                                Result::Err(ParseError::RangeViolation)
                            }
                        } else if d > hi {
                            Result::Err(ParseError::RangeViolation)
                        } else if !reach(lo, hi, d) {
                            Result::Err(ParseError::RangeViolation)
                        } else {
                            proof {
                                assert(atoms_view(atoms@) =~= atoms_view(atoms@)
                                    + Seq::<AtomV>::empty());
                            }
                            Result::Ok(PNode::Num { lo, hi, acc: Option::Some(d), next })
                        }
                    },
                    Option::Some(v) => {
                        if v == 0 {
                            Result::Err(ParseError::UnexpectedByte(b))
                        } else if v > hi / 10 {
                            proof {
                                assert(v * 10 + d > hi) by (nonlinear_arith)
                                    requires
                                        v > hi / 10,
                                        d >= 0,
                                        hi >= 0,
                                ;
                            }
                            Result::Err(ParseError::RangeViolation)
                        } else {
                            proof {
                                assert(v * 10 <= hi) by (nonlinear_arith)
                                    requires
                                        v <= hi / 10,
                                        v >= 0,
                                        hi >= 0,
                                ;
                            }
                            let base = v * 10;
                            if d > hi - base {
                                Result::Err(ParseError::RangeViolation)
                            } else if !reach(lo, hi, base + d) {
                                Result::Err(ParseError::RangeViolation)
                            } else {
                                proof {
                                    assert(atoms_view(atoms@) =~= atoms_view(atoms@)
                                        + Seq::<AtomV>::empty());
                                }
                                Result::Ok(
                                    PNode::Num { lo, hi, acc: Option::Some(base + d), next },
                                )
                            }
                        }
                    },
                }
            } else {
                match acc {
                    Option::Some(v) => {
                        if lo <= v && v <= hi {
                            let ghost nextv = pnode_view(*next);
                            atoms.push(Atom::IntAtom(v));
                            proof {
                                assert(atoms_view(atoms@) =~= atoms_view(old(atoms)@) + seq![
                                    AtomV::IntAtom(v),
                                ]);
                            }
                            match step_node(*next, b, atoms) {
                                Result::Ok(n2) => {
                                    proof {
                                        if let StepV::Keep { node: nd, emit: em } = spec_step(
                                            nextv,
                                            b,
                                        ) {
                                            assert(atoms_view(atoms@) =~= atoms_view(old(atoms)@)
                                                + (seq![AtomV::IntAtom(v)] + em));
                                            assert(spec_step(nv, b) == (StepV::Keep {
                                                node: nd,
                                                emit: seq![AtomV::IntAtom(v)] + em,
                                            }));
                                        }
                                    }
                                    Result::Ok(n2)
                                },
                                Result::Err(e) => Result::Err(e),
                            }
                        } else {
                            Result::Err(ParseError::RangeViolation)
                        }
                    },
                    Option::None => Result::Err(ParseError::UnexpectedByte(b)),
                }
            }
        },
        PNode::Txt { min, max, inside, body, next } => {
            if !inside {
                if b == 34 {
                    proof {
                        assert(atoms_view(atoms@) =~= atoms_view(atoms@) + Seq::<AtomV>::empty());
                    }
                    Result::Ok(PNode::Txt { min, max, inside: true, body, next })
                } else {
                    Result::Err(ParseError::UnexpectedByte(b))
                }
            } else if b == 34 {
                if body.len() as u64 >= min {
                    let ghost bodyv = body@;
                    atoms.push(Atom::TextAtom(body));
                    proof {
                        assert(atoms_view(atoms@) =~= atoms_view(old(atoms)@) + seq![
                            AtomV::TextAtom(bodyv),
                        ]);
                    }
                    Result::Ok(*next)
                } else {
                    Result::Err(ParseError::LengthViolation)
                }
            } else if b == 92 {
                Result::Err(ParseError::UnexpectedByte(b))
            } else if body.len() as u64 >= max {
                Result::Err(ParseError::LengthViolation)
            } else {
                let mut body2 = body;
                body2.push(b);
                proof {
                    assert(atoms_view(atoms@) =~= atoms_view(atoms@) + Seq::<AtomV>::empty());
                }
                Result::Ok(PNode::Txt { min, max, inside, body: body2, next })
            }
        },
        PNode::Pat { dfa, state, inside, body, next } => {
            if !inside {
                if b == 34 {
                    proof {
                        assert(atoms_view(atoms@) =~= atoms_view(atoms@) + Seq::<AtomV>::empty());
                    }
                    Result::Ok(PNode::Pat { dfa, state, inside: true, body, next })
                } else {
                    Result::Err(ParseError::UnexpectedByte(b))
                }
            } else if b == 34 {
                if state < dfa.accepting.len() && dfa.accepting[state] {
                    let ghost bodyv = body@;
                    atoms.push(Atom::TextAtom(body));
                    proof {
                        assert(atoms_view(atoms@) =~= atoms_view(old(atoms)@) + seq![
                            AtomV::TextAtom(bodyv),
                        ]);
                    }
                    Result::Ok(*next)
                } else {
                    Result::Err(ParseError::PatternMismatch)
                }
            } else if b == 92 {
                Result::Err(ParseError::UnexpectedByte(b))
            } else {
                if state < dfa.accepting.len() && dfa.delta.len() == dfa.accepting.len()
                    && dfa.delta[state].len() == 256 {
                    let t = dfa.delta[state][b as usize];
                    proof {
                        assert(dfa@.delta[state as int] == dfa.delta@[state as int]@);
                    }
                    if t < dfa.accepting.len() {
                        let mut body2 = body;
                        body2.push(b);
                        proof {
                            assert(atoms_view(atoms@) =~= atoms_view(atoms@)
                                + Seq::<AtomV>::empty());
                        }
                        Result::Ok(PNode::Pat { dfa, state: t, inside, body: body2, next })
                    } else {
                        Result::Err(ParseError::PatternMismatch)
                    }
                } else {
                    Result::Err(ParseError::PatternMismatch)
                }
            }
        },
        PNode::Alts { branches } => {
            proof {
                lemma_branches_view_index(branches@);
            }
            let ghost bv = branches_view(branches@);
            let ghost orig = branches@;
            let mut rem = branches;
            let mut survivors: Vec<Branch> = Vec::new();
            let n_total = rem.len();
            let mut i: usize = 0;
            proof {
                assert(bv.subrange(0, 0) =~= Seq::<BranchV>::empty());
            }
            while i < n_total
                invariant
                    0 <= i <= n_total,
                    rem@ =~= orig.subrange(i as int, n_total as int),
                    branches_view(survivors@) =~~= step_branches(bv.subrange(0, i as int), b),
                decreases n_total - i,
            {
                let br = rem.remove(0);
                proof {
                    assert(br == orig[i as int]);
                    assert(rem@ =~= orig.subrange(i as int + 1, n_total as int));
                    assert(bv.subrange(0, i as int + 1).drop_last() =~= bv.subrange(0, i as int));
                    assert(bv.subrange(0, i as int + 1).last() == bv[i as int]);
                    assert(bv[i as int] == branch_view(orig[i as int]));
                }
                if br.pos < br.lit.len() && br.lit[br.pos] == b {
                    let br2 = Branch { tag: br.tag, lit: br.lit, pos: br.pos + 1, next: br.next };
                    let ghost before = survivors@;
                    survivors.push(br2);
                    proof {
                        assert(survivors@.drop_last() =~= before);
                        assert(branches_view(survivors@) == branches_view(before).push(
                            branch_view(survivors@.last()),
                        ));
                        assert(branch_view(survivors@.last()) == branch_step(bv[i as int]));
                        assert(branches_view(survivors@) =~~= step_branches(
                            bv.subrange(0, i as int + 1),
                            b,
                        ));
                    }
                } else {
                    proof {
                        assert(!branch_matches(bv[i as int], b));
                        assert(branches_view(survivors@) =~~= step_branches(
                            bv.subrange(0, i as int + 1),
                            b,
                        ));
                    }
                }
                i = i + 1;
            }
            proof {
                assert(bv.subrange(0, n_total as int) =~= bv);
                lemma_branches_view_index(survivors@);
            }
            let ghost sv = branches_view(survivors@);
            let m = survivors.len();
            if m == 0 {
                return Result::Err(ParseError::UnknownVariantTag);
            }
            let mut idx: usize = m;
            let mut j: usize = 0;
            while j < m
                invariant
                    0 <= j <= m,
                    idx == m || idx < j,
                    idx == m ==> forall|t: int| 0 <= t < j ==> !branch_complete(#[trigger] sv[t]),
                    idx < m ==> branch_complete(sv[idx as int]) && (forall|t: int|
                        0 <= t < idx ==> !branch_complete(#[trigger] sv[t])),
                decreases m - j,
            {
                if idx == m && survivors[j].pos == survivors[j].lit.len() {
                    assert(branch_complete(sv[j as int]));
                    idx = j;
                }
                j = j + 1;
            }
            if idx < m {
                proof {
                    lemma_first_complete_at(sv, idx as int);
                }
                let chosen = survivors.remove(idx);
                proof {
                    assert(branch_view(chosen) == sv[idx as int]);
                }
                atoms.push(Atom::ChoiceAtom(chosen.tag));
                proof {
                    assert(atoms_view(atoms@) =~= atoms_view(old(atoms)@) + seq![
                        AtomV::ChoiceAtom(sv[idx as int].tag),
                    ]);
                }
                Result::Ok(chosen.next)
            } else {
                proof {
                    lemma_first_complete_none(sv);
                    assert(atoms_view(atoms@) =~= atoms_view(atoms@) + Seq::<AtomV>::empty());
                }
                Result::Ok(PNode::Alts { branches: survivors })
            }
        },
    }
}

/// A compiled parser: the validated type description it was built from.
/// Immutable and reusable: every session compiles its own cursor tree from
/// it, so arbitrarily many sessions can run side by side.
pub struct Parser {
    desc: TypeDescription,
}

impl View for Parser {
    type V = TdV;

    closed spec fn view(&self) -> TdV {
        self.desc@
    }
}

impl Parser {
    /// The schema model of the same type description this parser was
    /// compiled from: the second of the two synchronized artifacts.
    pub fn schema(&self) -> (r: crate::schema::SchemaNode)
        ensures
            r@ == crate::schema::schema_of(self@),
    {
        crate::schema::build_schema(&self.desc)
    }
}

/// Compiles a type description into a reusable parser. Fails exactly on
/// malformed descriptions, with the same judgment as the schema compiler —
/// the two artifacts always come from one validated source.
pub fn compile_parser(desc: TypeDescription) -> (r: Result<Parser, MalformedSpec>)
    ensures
        r is Ok <==> wf_td(desc@),
        r matches Ok(p) ==> p@ == desc@,
{
    match validate(&desc) {
        Result::Err(e) => Result::Err(e),
        Result::Ok(()) => Result::Ok(Parser { desc }),
    }
}

/// The initial session state of a parser.
pub open spec fn init_state(t: TdV) -> StateV {
    StateV { node: parser_of(t, PNodeV::Done), atoms: Seq::empty() }
}

/// Opens a fresh parse session: a cursor at the root, an empty atom trail.
pub fn create_state(p: &Parser) -> (st: ParserState)
    ensures
        st@ == init_state(p@),
{
    let node = build_node(&p.desc, PNode::Done);
    let st = ParserState { node, atoms: Vec::new() };
    proof {
        assert(atoms_view(st.atoms@) =~= Seq::<AtomV>::empty());
    }
    st
}

/// Outcome of feeding one byte or one buffer: the session continues with
/// the new state, or the candidate byte is rejected with its reason.
pub enum Advanced {
    Continue(ParserState),
    Invalid(ParseError),
}

/// Feeds one byte into a session, mirroring `spec_advance` exactly.
pub fn advance(st: ParserState, b: u8) -> (r: Advanced)
    ensures
        r matches Advanced::Continue(s2) ==> spec_advance(st@, b) == Result::<
            StateV,
            ParseError,
        >::Ok(s2@),
        r matches Advanced::Invalid(e) ==> spec_advance(st@, b) == Result::<
            StateV,
            ParseError,
        >::Err(e),
        r is Continue <==> spec_advance(st@, b) is Ok,
{
    let ParserState { node, mut atoms } = st;
    match step_node(node, b, &mut atoms) {
        Result::Ok(n2) => Advanced::Continue(ParserState { node: n2, atoms }),
        Result::Err(e) => Advanced::Invalid(e),
    }
}

/// Feeds a whole buffer, one byte after the other, mirroring `spec_feed`:
/// by `lemma_feed_chunks` this gives exactly the state that feeding the
/// same bytes in any split would.
#[verifier::loop_isolation(false)]
pub fn advance_all(st: ParserState, bytes: &Vec<u8>) -> (r: Advanced)
    ensures
        r matches Advanced::Continue(s2) ==> spec_feed(st@, bytes@) == FeedV::Going(s2@),
        r matches Advanced::Invalid(e) ==> spec_feed(st@, bytes@) == FeedV::Stopped(e),
        r is Continue <==> spec_feed(st@, bytes@) is Going,
{
    let ghost sv0 = st@;
    let n = bytes.len();
    let mut cur = st;
    let mut i: usize = 0;
    proof {
        assert(bytes@.subrange(0, n as int) =~= bytes@);
    }
    while i < n
        invariant
            0 <= i <= n,
            n == bytes@.len(),
            spec_feed(sv0, bytes@) == spec_feed(cur@, bytes@.subrange(i as int, n as int)),
        decreases n - i,
    {
        let ghost tail = bytes@.subrange(i as int, n as int);
        let ghost curv = cur@;
        proof {
            assert(tail[0] == bytes@[i as int]);
            assert(tail.drop_first() =~= bytes@.subrange(i as int + 1, n as int));
        }
        match advance(cur, bytes[i]) {
            Advanced::Continue(s2) => {
                proof {
                    assert(spec_feed(curv, tail) == spec_feed(s2@, tail.drop_first()));
                }
                cur = s2;
            },
            Advanced::Invalid(e) => {
                proof {
                    assert(spec_feed(curv, tail) == FeedV::Stopped(e));
                    assert(spec_feed(sv0, bytes@) == FeedV::Stopped(e));
                }
                return Advanced::Invalid(e);
            },
        }
        i = i + 1;
    }
    proof {
        assert(bytes@.subrange(n as int, n as int) =~= Seq::<u8>::empty());
    }
    Advanced::Continue(cur)
}

/// Feeds a whole buffer and reports how far it got: with the buffer
/// accepted, the new state and the buffer's length; with a byte rejected,
/// the reason and the offset of that byte — the position a generation loop
/// reports when it explains why a candidate continuation was excluded. The
/// rejection reason names the violated constraint.
pub fn advance_all_located(st: ParserState, bytes: &Vec<u8>) -> (r: (Advanced, usize))
    ensures
        r.0 matches Advanced::Continue(s2) ==> spec_feed(st@, bytes@) == FeedV::Going(s2@) && r.1
            == bytes@.len(),
        r.0 matches Advanced::Invalid(e) ==> {
            &&& r.1 < bytes@.len()
            &&& spec_feed(st@, bytes@.subrange(0, r.1 as int)) matches FeedV::Going(mid)
            &&& spec_advance(mid, bytes@[r.1 as int]) == Result::<StateV, ParseError>::Err(e)
        },
{
    let ghost sv0 = st@;
    let n = bytes.len();
    let mut cur = st;
    let mut i: usize = 0;
    proof {
        assert(bytes@.subrange(0, 0) =~= Seq::<u8>::empty());
    }
    while i < n
        invariant
            0 <= i <= n,
            n == bytes@.len(),
            sv0 == st@,
            spec_feed(sv0, bytes@.subrange(0, i as int)) == FeedV::Going(cur@),
        decreases n - i,
    {
        let ghost done = bytes@.subrange(0, i as int);
        let ghost curv = cur@;
        match advance(cur, bytes[i]) {
            Advanced::Continue(s2) => {
                proof {
                    reveal_with_fuel(spec_feed, 3);
                    assert(bytes@.subrange(0, i as int + 1) =~= done + seq![bytes@[i as int]]);
                    lemma_feed_chunks(sv0, done, seq![bytes@[i as int]]);
                    assert(seq![bytes@[i as int]][0] == bytes@[i as int]);
                    assert(seq![bytes@[i as int]].drop_first() =~= Seq::<u8>::empty());
                    assert(spec_feed(curv, seq![bytes@[i as int]]) == FeedV::Going(s2@));
                }
                cur = s2;
            },
            Advanced::Invalid(e) => {
                return (Advanced::Invalid(e), i);
            },
        }
        i = i + 1;
    }
    proof {
        assert(bytes@.subrange(0, n as int) =~= bytes@);
    }
    (Advanced::Continue(cur), n)
}

/// The atoms still owed by a finishable cursor: none when the cursor is
/// done; the pending integer when the input ended right after a complete
/// in-range numeral at the end of the grammar. Any other cursor is
/// incomplete.
pub open spec fn finish_emits(n: PNodeV) -> Option<Seq<AtomV>> {
    match n {
        PNodeV::Done => Option::Some(Seq::empty()),
        PNodeV::Num { lo, hi, acc, next } => {
            match acc {
                Option::Some(v) => {
                    if lo <= v && v <= hi && *next is Done {
                        Option::Some(seq![AtomV::IntAtom(v)])
                    } else {
                        Option::None
                    }
                },
                Option::None => Option::None,
            }
        },
        _ => Option::None,
    }
}

/// The finished value of a session, when the bytes seen so far form one
/// complete serialized value of the type: the full atom trail assembles to
/// exactly one value with nothing left over.
pub open spec fn spec_finish(t: TdV, sv: StateV) -> Option<ValueV> {
    match finish_emits(sv.node) {
        Option::None => Option::None,
        Option::Some(extra) => {
            let all = sv.atoms + extra;
            match spec_assemble(t, all, 0) {
                Option::Some((v, j)) => {
                    if j == all.len() {
                        Option::Some(v)
                    } else {
                        Option::None
                    }
                },
                Option::None => Option::None,
            }
        },
    }
}

/// Closes a session: the finished value when the input seen is complete,
/// or nothing when more bytes are needed. Mirrors `spec_finish` exactly.
pub fn finish(p: &Parser, st: ParserState) -> (r: Option<Value>)
    ensures
        r matches Some(v) ==> spec_finish(p@, st@) == Option::Some(v@),
        r is None ==> spec_finish(p@, st@) is None,
{
    let ghost sv = st@;
    proof {
        reveal_with_fuel(pnode_view, 3);
    }
    let ParserState { node, mut atoms } = st;
    let ghost before = atoms@;
    match node {
        PNode::Done => {
            proof {
                assert(atoms_view(atoms@) =~= sv.atoms + Seq::<AtomV>::empty());
            }
        },
        PNode::Num { lo, hi, acc, next } => {
            match acc {
                Option::Some(v) => {
                    if lo <= v && v <= hi && matches!(*next, PNode::Done) {
                        atoms.push(Atom::IntAtom(v));
                        proof {
                            assert(atoms_view(atoms@) =~= sv.atoms + seq![AtomV::IntAtom(v)]);
                        }
                    } else {
                        return Option::None;
                    }
                },
                Option::None => {
                    return Option::None;
                },
            }
        },
        _ => {
            return Option::None;
        },
    }
    match assemble(&p.desc, &atoms, 0) {
        Option::Some((v, j)) => {
            if j == atoms.len() {
                Option::Some(v)
            } else {
                Option::None
            }
        },
        Option::None => Option::None,
    }
}

pub open spec fn is_ws(b: u8) -> bool {
    b == 32 || b == 9 || b == 10 || b == 13
}

/// Whitespace test on a byte.
fn byte_is_ws(b: u8) -> (r: bool)
    ensures
        r == is_ws(b),
{
    b == 32 || b == 9 || b == 10 || b == 13
}

/// The input without its trailing whitespace.
pub open spec fn trim_ws(s: Seq<u8>) -> Seq<u8>
    decreases s.len(),
{
    if s.len() > 0 && is_ws(s.last()) {
        trim_ws(s.drop_last())
    } else {
        s
    }
}

/// What one whole buffer means against a type: after trailing whitespace is
/// set aside, the bytes feed from a fresh session and the session must
/// finish. Whole-buffer parsing and byte-at-a-time feeding agree by
/// construction.
pub open spec fn spec_parse(t: TdV, s: Seq<u8>) -> Option<ValueV> {
    match spec_feed(init_state(t), trim_ws(s)) {
        FeedV::Going(sv) => spec_finish(t, sv),
        FeedV::Stopped(_) => Option::None,
    }
}

/// Parses one whole buffer against a compiled parser, tolerating trailing
/// whitespace. Mirrors `spec_parse` exactly.
pub fn parse(p: &Parser, bytes: &Vec<u8>) -> (r: Option<Value>)
    ensures
        r matches Some(v) ==> spec_parse(p@, bytes@) == Option::Some(v@),
        r is None ==> spec_parse(p@, bytes@) is None,
{
    let mut end = bytes.len();
    proof {
        assert(bytes@.subrange(0, bytes@.len() as int) =~= bytes@);
    }
    let mut trimming = end > 0 && byte_is_ws(bytes[end - 1]);
    while trimming
        invariant
            0 <= end <= bytes@.len(),
            trim_ws(bytes@) == trim_ws(bytes@.subrange(0, end as int)),
            trimming == (end > 0 && is_ws(bytes@[end - 1])),
        decreases end,
    {
        proof {
            assert(bytes@.subrange(0, end as int).last() == bytes@[end - 1]);
            assert(bytes@.subrange(0, end as int).drop_last() =~= bytes@.subrange(
                0,
                end as int - 1,
            ));
        }
        end = end - 1;
        trimming = end > 0 && byte_is_ws(bytes[end - 1]);
    }
    proof {
        assert(trim_ws(bytes@.subrange(0, end as int)) == bytes@.subrange(0, end as int));
    }
    let mut head: Vec<u8> = Vec::new();
    let mut i: usize = 0;
    while i < end
        invariant
            0 <= i <= end <= bytes@.len(),
            head@ == bytes@.subrange(0, i as int),
        decreases end - i,
    {
        head.push(bytes[i]);
        assert(head@ =~= bytes@.subrange(0, i as int + 1));
        i = i + 1;
    }
    proof {
        assert(head@ =~= bytes@.subrange(0, end as int));
    }
    let st = create_state(p);
    match advance_all(st, &head) {
        Advanced::Continue(s2) => finish(p, s2),
        Advanced::Invalid(_) => Option::None,
    }
}

pub proof fn lemma_unit_branches_index(variants: Seq<VariantV>, k: PNodeV)
    ensures
        unit_branches(variants, k).len() == variants.len(),
        forall|i: int|
            0 <= i < variants.len() ==> (#[trigger] unit_branches(variants, k)[i]) == (BranchV {
                tag: i as usize,
                lit: quoted(variants[i].name),
                pos: 0,
                next: k,
            }),
    decreases variants,
{
    if variants.len() > 0 {
        lemma_unit_branches_index(variants.drop_last(), k);
        assert forall|i: int| 0 <= i < variants.len() implies (#[trigger] unit_branches(
            variants,
            k,
        )[i]) == (BranchV { tag: i as usize, lit: quoted(variants[i].name), pos: 0, next: k }) by {
            if i < variants.len() - 1 {
                assert(variants.drop_last()[i] == variants[i]);
                assert(unit_branches(variants, k)[i] == unit_branches(
                    variants.drop_last(),
                    k,
                )[i]);
            } else {
                assert(variants.last() == variants[i]);
            }
        }
    }
}

pub proof fn lemma_variant_branches_index(variants: Seq<VariantV>, contentk: Seq<u8>, k: PNodeV)
    ensures
        variant_branches(variants, contentk, k).len() == variants.len(),
        forall|i: int|
            0 <= i < variants.len() ==> (#[trigger] variant_branches(variants, contentk, k)[i])
                == (BranchV {
                tag: i as usize,
                lit: quoted(variants[i].name),
                pos: 0,
                next: variant_rest(variants[i], contentk, k),
            }),
    decreases variants,
{
    if variants.len() > 0 {
        lemma_variant_branches_index(variants.drop_last(), contentk, k);
        assert forall|i: int| 0 <= i < variants.len() implies (#[trigger] variant_branches(
            variants,
            contentk,
            k,
        )[i]) == (BranchV {
            tag: i as usize,
            lit: quoted(variants[i].name),
            pos: 0,
            next: variant_rest(variants[i], contentk, k),
        }) by {
            if i < variants.len() - 1 {
                assert(variants.drop_last()[i] == variants[i]);
                assert(variant_branches(variants, contentk, k)[i] == variant_branches(
                    variants.drop_last(),
                    contentk,
                    k,
                )[i]);
            } else {
                assert(variants.last() == variants[i]);
            }
        }
    }
}

/// Schema/parser lock-step on a payload-free union: the two compilations of
/// one description stay synchronized by construction. The schema flattens
/// to the enumeration of the serialized discriminants, and the parser's
/// dispatch holds exactly one branch per discriminant, in the same order,
/// whose literal is that discriminant framed in quotes — so a discriminant
/// is declared valid by the schema document exactly when the parser has a
/// branch that accepts its quoted spelling.
pub proof fn lemma_unit_union_lock_step(t: TdV, k: PNodeV)
    requires
        t matches TdV::Union { variants, .. } && all_unit(variants),
    ensures
        crate::schema::schema_of(t) == (crate::schema::SchemaV::Enum {
            values: crate::desc::variant_names(t->Union_variants),
        }),
        parser_of(t, k) == (PNodeV::Alts { branches: unit_branches(t->Union_variants, k) }),
        unit_branches(t->Union_variants, k).len() == t->Union_variants.len(),
        crate::desc::variant_names(t->Union_variants).len() == t->Union_variants.len(),
        forall|i: int|
            0 <= i < t->Union_variants.len() ==> (#[trigger] unit_branches(
                t->Union_variants,
                k,
            )[i]) == (BranchV {
                tag: i as usize,
                lit: quoted(crate::desc::variant_names(t->Union_variants)[i]),
                pos: 0,
                next: k,
            }),
{
    let variants = t->Union_variants;
    lemma_unit_branches_index(variants, k);
    assert forall|i: int|
        0 <= i < variants.len() implies (#[trigger] unit_branches(variants, k)[i]).lit == quoted(
        crate::desc::variant_names(variants)[i],
    ) by {
        assert(crate::desc::variant_names(variants)[i] == variants[i].name);
    }
}

/// Schema/parser lock-step on a union with payloads: under both the
/// configured tagged keys and the default keys, the schema holds one object
/// alternative per variant whose discriminant property is the constant
/// discriminant, and the parser dispatch holds one branch per variant, in
/// the same order, whose literal is that same discriminant framed in
/// quotes.
/// The discriminant key a union serializes under: the configured tag field,
/// or the default key.
pub open spec fn union_tag_key(t: TdV) -> Seq<u8> {
    match t->Union_tag_field {
        Option::Some(tk) => tk,
        Option::None => mixed_tag_key(),
    }
}

/// The payload key a union serializes under: the configured content field,
/// or the default key.
pub open spec fn union_content_key(t: TdV) -> Seq<u8> {
    match t->Union_content_field {
        Option::Some(ck) => ck,
        Option::None => mixed_content_key(),
    }
}

pub proof fn lemma_tagged_union_lock_step(t: TdV, k: PNodeV)
    requires
        t matches TdV::Union { variants, .. } && !all_unit(variants),
        t->Union_tag_field is Some <==> t->Union_content_field is Some,
    ensures
        crate::schema::schema_of(t) == (crate::schema::SchemaV::OneOf {
            alternatives: crate::schema::alts_of(
                t->Union_variants,
                union_tag_key(t),
                union_content_key(t),
            ),
        }),
        parser_of(t, k) == (PNodeV::Lit {
            bytes: seq![123u8] + quoted(union_tag_key(t)) + seq![58u8, 32u8],
            pos: 0,
            next: Box::new(
                PNodeV::Alts {
                    branches: variant_branches(t->Union_variants, union_content_key(t), k),
                },
            ),
        }),
        crate::schema::alts_of(t->Union_variants, union_tag_key(t), union_content_key(t)).len()
            == t->Union_variants.len(),
        variant_branches(t->Union_variants, union_content_key(t), k).len()
            == t->Union_variants.len(),
        forall|i: int|
            0 <= i < t->Union_variants.len() ==> {
                &&& (#[trigger] crate::schema::alts_of(
                    t->Union_variants,
                    union_tag_key(t),
                    union_content_key(t),
                )[i]) matches crate::schema::SchemaV::Object { properties, .. }
                &&& properties.len() >= 1
                &&& properties[0].1 matches crate::schema::SchemaV::Const { value }
                &&& variant_branches(t->Union_variants, union_content_key(t), k)[i].lit == quoted(
                    value,
                )
                &&& variant_branches(t->Union_variants, union_content_key(t), k)[i].tag == i as usize
            },
{
    let variants = t->Union_variants;
    let tagk = union_tag_key(t);
    let contentk = union_content_key(t);
    crate::schema::lemma_alts_of_index(variants, tagk, contentk);
    lemma_variant_branches_index(variants, contentk, k);
    assert forall|i: int| 0 <= i < variants.len() implies {
        &&& (#[trigger] crate::schema::alts_of(variants, tagk, contentk)[i]) matches
            crate::schema::SchemaV::Object { properties, .. }
        &&& properties.len() >= 1
        &&& properties[0].1 matches crate::schema::SchemaV::Const { value }
        &&& variant_branches(variants, contentk, k)[i].lit == quoted(value)
        &&& variant_branches(variants, contentk, k)[i].tag == i as usize
    } by {
        assert(crate::schema::alts_of(variants, tagk, contentk)[i] == crate::schema::alt_of(
            variants[i],
            tagk,
            contentk,
        ));
        assert(variant_branches(variants, contentk, k)[i] == (BranchV {
            tag: i as usize,
            lit: quoted(variants[i].name),
            pos: 0,
            next: variant_rest(variants[i], contentk, k),
        }));
        let alt = crate::schema::alt_of(variants[i], tagk, contentk);
        match variants[i].kind {
            VariantKindV::Unit => {
                assert(alt matches crate::schema::SchemaV::Object { properties, .. }
                    && properties[0].1 == (crate::schema::SchemaV::Const {
                    value: variants[i].name,
                }) && properties.len() >= 1);
            },
            VariantKindV::Tuple(_) => {
                assert(alt matches crate::schema::SchemaV::Object { properties, .. }
                    && properties[0].1 == (crate::schema::SchemaV::Const {
                    value: variants[i].name,
                }) && properties.len() >= 1);
            },
            VariantKindV::Record(_) => {
                assert(alt matches crate::schema::SchemaV::Object { properties, .. }
                    && properties[0].1 == (crate::schema::SchemaV::Const {
                    value: variants[i].name,
                }) && properties.len() >= 1);
            },
        }
    }
}

/// Schema/parser lock-step on a constrained primitive: the same bounds and
/// the same automaton flow from the one description into both artifacts —
/// the schema keeps the constraint the parser enforces.
pub proof fn lemma_primitive_lock_step(t: TdV, k: PNodeV)
    requires
        t is Primitive,
        crate::desc::wf_constraint(t->Primitive_kind, t->Primitive_constraint),
    ensures
        t->Primitive_constraint matches Option::Some(ConstraintV::Range(bd)) ==> {
            &&& crate::schema::schema_of(t) == (crate::schema::SchemaV::IntegerConstrained {
                range: bd,
            })
            &&& parser_of(t, k) == (PNodeV::Num {
                lo: bd.min,
                hi: bd.max,
                acc: Option::None,
                next: Box::new(k),
            })
        },
        t->Primitive_constraint matches Option::Some(ConstraintV::Length(bd)) ==> {
            &&& crate::schema::schema_of(t) == (crate::schema::SchemaV::StringConstrained {
                length: Option::Some(bd),
                pattern: Option::None,
            })
            &&& parser_of(t, k) == (PNodeV::Txt {
                min: bd.min,
                max: bd.max,
                inside: false,
                body: Seq::empty(),
                next: Box::new(k),
            })
        },
        t->Primitive_constraint matches Option::Some(ConstraintV::Pattern(d)) ==> {
            &&& crate::schema::schema_of(t) == (crate::schema::SchemaV::StringConstrained {
                length: Option::None,
                pattern: Option::Some(d),
            })
            &&& parser_of(t, k) == (PNodeV::Pat {
                dfa: d,
                state: d.start,
                inside: false,
                body: Seq::empty(),
                next: Box::new(k),
            })
        },
{
}

/// Schema/parser lock-step on a record shape: the schema's properties and
/// required list name exactly the serialized field names, in declaration
/// order, and the parser demands its keys from the same list in the same
/// order.
pub proof fn lemma_record_lock_step(t: TdV, k: PNodeV)
    requires
        t is Record,
    ensures
        crate::schema::schema_of(t) == (crate::schema::SchemaV::Object {
            properties: crate::schema::props_of(t->Record_fields),
            required: crate::desc::field_names(t->Record_fields),
        }),
        parser_of(t, k) == record_parser(t->Record_fields, k),
        crate::schema::props_of(t->Record_fields).len() == t->Record_fields.len(),
        crate::desc::field_names(t->Record_fields).len() == t->Record_fields.len(),
        forall|i: int|
            0 <= i < t->Record_fields.len() ==> (#[trigger] crate::schema::props_of(
                t->Record_fields,
            )[i]).0 == crate::desc::field_names(t->Record_fields)[i],
{
    crate::schema::lemma_props_of_index(t->Record_fields);
    assert forall|i: int| 0 <= i < t->Record_fields.len() implies (#[trigger] crate::schema::props_of(
        t->Record_fields,
    )[i]).0 == crate::desc::field_names(t->Record_fields)[i] by {
        assert(crate::desc::field_names(t->Record_fields)[i] == t->Record_fields[i].serialized_name);
    }
}

} // verus!
