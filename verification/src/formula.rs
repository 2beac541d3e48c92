//! Core LTL formula representation.
//!
//! [`LtlFormula`] is the executable formula tree; [`FormulaModel`] is its
//! mathematical counterpart, in which atomic propositions are character
//! sequences. Every contract of the crate speaks of formulas through
//! `LtlFormula::view`.
use std::collections::hash_map::DefaultHasher;
use std::hash::Hash;
use std::hash::Hasher;
use std::mem::Discriminant;
use vstd::prelude::*;
use vstd::std_specs::hash::DefaultHasherAdditionalSpecFns;
use vstd::utf8::encode_utf8;

verus! {

/// A Linear Temporal Logic formula.
///
/// | Variant | Symbol | Meaning |
/// |---------|--------|---------|
/// | `Atomic(s)` | `s` | Proposition `s` holds now |
/// | `Not(φ)` | `!φ` | Negation |
/// | `And(φ, ψ)` | `φ & ψ` | Conjunction |
/// | `Or(φ, ψ)` | `φ \| ψ` | Disjunction |
/// | `Implies(φ, ψ)` | `φ -> ψ` | Implication |
/// | `Next(φ)` | `X φ` | φ holds at the next step |
/// | `Finally(φ)` | `F φ` | φ holds at some future step |
/// | `Globally(φ)` | `G φ` | φ holds at every future step |
/// | `Until(φ, ψ)` | `φ U ψ` | ψ eventually holds; φ holds until then |
/// | `Release(φ, ψ)` | `φ R ψ` | ψ holds forever, or until φ releases it |
#[derive(Debug, PartialEq, Eq, Hash)]
pub enum LtlFormula {
    /// Atomic proposition.
    Atomic(String),
    /// Logical negation.
    Not(Box<LtlFormula>),
    /// Logical conjunction.
    And(Box<LtlFormula>, Box<LtlFormula>),
    /// Logical disjunction.
    Or(Box<LtlFormula>, Box<LtlFormula>),
    /// Material implication.
    Implies(Box<LtlFormula>, Box<LtlFormula>),
    /// Next (tomorrow) operator — `X φ`.
    Next(Box<LtlFormula>),
    /// Eventually (finally) operator — `F φ`.
    Finally(Box<LtlFormula>),
    /// Always (globally) operator — `G φ`.
    Globally(Box<LtlFormula>),
    /// Strong Until — `φ U ψ`.
    Until(Box<LtlFormula>, Box<LtlFormula>),
    /// Release (dual of Until) — `φ R ψ`.
    Release(Box<LtlFormula>, Box<LtlFormula>),
}

/// The mathematical value of an [`LtlFormula`]: the same tree, with each
/// atomic proposition given by its characters.
pub enum FormulaModel {
    Atomic(Seq<char>),
    Not(Box<FormulaModel>),
    And(Box<FormulaModel>, Box<FormulaModel>),
    Or(Box<FormulaModel>, Box<FormulaModel>),
    Implies(Box<FormulaModel>, Box<FormulaModel>),
    Next(Box<FormulaModel>),
    Finally(Box<FormulaModel>),
    Globally(Box<FormulaModel>),
    Until(Box<FormulaModel>, Box<FormulaModel>),
    Release(Box<FormulaModel>, Box<FormulaModel>),
}

impl LtlFormula {
    /// The model of this formula.
    pub open spec fn model(self) -> FormulaModel
        decreases self,
    {
        match self {
            LtlFormula::Atomic(s) => FormulaModel::Atomic(s@),
            LtlFormula::Not(a) => FormulaModel::Not(Box::new((*a).model())),
            LtlFormula::And(a, b) => FormulaModel::And(Box::new((*a).model()), Box::new((*b).model())),
            LtlFormula::Or(a, b) => FormulaModel::Or(Box::new((*a).model()), Box::new((*b).model())),
            LtlFormula::Implies(a, b) => FormulaModel::Implies(
                Box::new((*a).model()),
                Box::new((*b).model()),
            ),
            LtlFormula::Next(a) => FormulaModel::Next(Box::new((*a).model())),
            LtlFormula::Finally(a) => FormulaModel::Finally(Box::new((*a).model())),
            LtlFormula::Globally(a) => FormulaModel::Globally(Box::new((*a).model())),
            LtlFormula::Until(a, b) => FormulaModel::Until(
                Box::new((*a).model()),
                Box::new((*b).model()),
            ),
            LtlFormula::Release(a, b) => FormulaModel::Release(
                Box::new((*a).model()),
                Box::new((*b).model()),
            ),
        }
    }
}

impl LtlFormula {
    /// A copy of this formula, node by node.
    pub fn copy(&self) -> (r: LtlFormula)
        ensures
            r@ == self@,
        decreases self,
    {
        match self {
            LtlFormula::Atomic(s) => LtlFormula::Atomic(s.clone()),
            LtlFormula::Not(a) => LtlFormula::Not(Box::new((**a).copy())),
            LtlFormula::And(a, b) => LtlFormula::And(Box::new((**a).copy()), Box::new((**b).copy())),
            LtlFormula::Or(a, b) => LtlFormula::Or(Box::new((**a).copy()), Box::new((**b).copy())),
            LtlFormula::Implies(a, b) => LtlFormula::Implies(
                Box::new((**a).copy()),
                Box::new((**b).copy()),
            ),
            LtlFormula::Next(a) => LtlFormula::Next(Box::new((**a).copy())),
            LtlFormula::Finally(a) => LtlFormula::Finally(Box::new((**a).copy())),
            LtlFormula::Globally(a) => LtlFormula::Globally(Box::new((**a).copy())),
            LtlFormula::Until(a, b) => LtlFormula::Until(
                Box::new((**a).copy()),
                Box::new((**b).copy()),
            ),
            LtlFormula::Release(a, b) => LtlFormula::Release(
                Box::new((**a).copy()),
                Box::new((**b).copy()),
            ),
        }
    }
}

impl Clone for LtlFormula {
    fn clone(&self) -> (r: LtlFormula)
        ensures
            r@ == self@,
    {
        self.copy()
    }
}

impl View for LtlFormula {
    type V = FormulaModel;

    open spec fn view(&self) -> FormulaModel {
        self.model()
    }
}

/// The text of a formula: atoms as written, `!` before an atom or a
/// unary temporal operator and `!( .. )` before anything else, binary
/// operators in parentheses, and unary temporal operators applied with
/// parentheses.
pub open spec fn display(f: FormulaModel) -> Seq<char>
    decreases f,
{
    match f {
        FormulaModel::Atomic(s) => s,
        FormulaModel::Not(inner) => {
            if (*inner is Atomic) || (*inner is Finally) || (*inner is Globally) || (*inner is Next) {
                "!"@ + display(*inner)
            } else {
                "!("@ + display(*inner) + ")"@
            }
        },
        FormulaModel::And(l, r) => "("@ + display(*l) + " & "@ + display(*r) + ")"@,
        FormulaModel::Or(l, r) => "("@ + display(*l) + " | "@ + display(*r) + ")"@,
        FormulaModel::Implies(l, r) => "("@ + display(*l) + " -> "@ + display(*r) + ")"@,
        FormulaModel::Next(inner) => "X("@ + display(*inner) + ")"@,
        FormulaModel::Finally(inner) => "F("@ + display(*inner) + ")"@,
        FormulaModel::Globally(inner) => "G("@ + display(*inner) + ")"@,
        FormulaModel::Until(l, r) => "("@ + display(*l) + " U "@ + display(*r) + ")"@,
        FormulaModel::Release(l, r) => "("@ + display(*l) + " R "@ + display(*r) + ")"@,
    }
}

/// Appends `parts` in order to a new string.
fn concat_parts(parts: &[&str]) -> (s: String)
    ensures
        s@ == concat_views(parts@, parts@.len() as int),
{
    let mut out = String::new();
    let mut i: usize = 0;
    while i < parts.len()
        invariant
            i <= parts@.len(),
            out@ == concat_views(parts@, i as int),
        decreases parts@.len() - i,
    {
        out.append(parts[i]);
        i = i + 1;
    }
    out
}

/// The characters of the first `n` pieces of `parts`, in order.
pub open spec fn concat_views(parts: Seq<&str>, n: int) -> Seq<char>
    decreases n,
{
    if n <= 0 {
        Seq::empty()
    } else {
        concat_views(parts, n - 1) + parts[n - 1]@
    }
}

/// `"(" + l + op + r + ")"`
fn wrap_binary(l: &str, op: &str, r: &str) -> (s: String)
    ensures
        s@ == "("@ + l@ + op@ + r@ + ")"@,
{
    let s = concat_parts(&[ "(", l, op, r, ")" ]);
    proof {
        reveal_with_fuel(concat_views, 6);
    }
    s
}

/// `head + inner`
fn prefix_with(head: &str, inner: &str) -> (s: String)
    ensures
        s@ == head@ + inner@,
{
    let s = concat_parts(&[head, inner]);
    proof {
        reveal_with_fuel(concat_views, 3);
    }
    s
}

/// `head + inner + ")"`
fn wrap_unary(head: &str, inner: &str) -> (s: String)
    ensures
        s@ == head@ + inner@ + ")"@,
{
    let s = concat_parts(&[head, inner, ")"]);
    proof {
        reveal_with_fuel(concat_views, 4);
    }
    s
}

#[verifier::external_type_specification]
#[verifier::external_body]
#[verifier::reject_recursive_types(T)]
pub struct ExDiscriminant<T>(Discriminant<T>);

/// Calls `std::mem::discriminant` on `f`. Nothing is claimed of the value,
/// which std documents only as identifying the variant.
#[verifier::external_body]
fn variant_of(f: &LtlFormula) -> Discriminant<LtlFormula> {
    std::mem::discriminant(f)
}

/// Calls `Hash::hash` of `Discriminant` with `hasher`: it hashes the
/// variant's discriminant, an `isize`, which the hasher receives as one
/// write of the integer's native bytes. What those bytes are (their number
/// follows the word size, their order the machine's byte order) is not
/// claimed; only that one write is appended.
#[verifier::external_body]
fn feed_variant(d: &Discriminant<LtlFormula>, hasher: &mut DefaultHasher)
    ensures
        final(hasher)@.len() == old(hasher)@.len() + 1,
        final(hasher)@.drop_last() == old(hasher)@,
{
    d.hash(hasher)
}

/// Calls `Hash::hash` of `u8` with `hasher`: one write of the single byte.
#[verifier::external_body]
fn feed_tag(tag: u8, hasher: &mut DefaultHasher)
    ensures
        final(hasher)@ == old(hasher)@.push(seq![tag]),
{
    tag.hash(hasher)
}

/// Calls `Hash::hash` of `u64` with `hasher`: one write of the integer's
/// eight native bytes, least significant first on a little-endian machine
/// and most significant first on a big-endian one. Which of the two holds
/// is not claimed.
#[verifier::external_body]
fn feed_id(id: u64, hasher: &mut DefaultHasher)
    ensures
        final(hasher)@ == old(hasher)@.push(id_bytes(id, false)) || final(hasher)@ == old(hasher)@.push(
            id_bytes(id, true),
        ),
{
    id.hash(hasher)
}

/// Calls `Hash::hash` of `String` with `hasher`: a write of the string's
/// UTF-8 bytes followed by a write of the byte `0xff`.
#[verifier::external_body]
fn feed_name(name: &String, hasher: &mut DefaultHasher)
    ensures
        final(hasher)@ == old(hasher)@.push(encode_utf8(name@)).push(seq![0xffu8]),
{
    name.hash(hasher)
}

/// The parts of a formula's id that depend on the machine: at each node,
/// the bytes std writes for the variant's discriminant, and the byte order
/// in which the node's own id is written when its parent is hashed.
pub enum IdLayout {
    Leaf(Seq<u8>, bool),
    Node(Seq<u8>, bool, Box<IdLayout>, Box<IdLayout>),
}

impl IdLayout {
    /// The bytes written for the variant at this node.
    pub open spec fn variant_bytes(self) -> Seq<u8> {
        match self {
            IdLayout::Leaf(v, _) => v,
            IdLayout::Node(v, _, _, _) => v,
        }
    }

    /// Whether this node's id is written most significant byte first.
    pub open spec fn big_endian(self) -> bool {
        match self {
            IdLayout::Leaf(_, b) => b,
            IdLayout::Node(_, b, _, _) => b,
        }
    }

    /// The layout of the first operand.
    pub open spec fn left(self) -> IdLayout {
        match self {
            IdLayout::Leaf(_, _) => self,
            IdLayout::Node(_, _, l, _) => *l,
        }
    }

    /// The layout of the second operand.
    pub open spec fn right(self) -> IdLayout {
        match self {
            IdLayout::Leaf(_, _) => self,
            IdLayout::Node(_, _, _, r) => *r,
        }
    }
}

/// The `n` low bytes of `x`, least significant first.
pub open spec fn little_endian_bytes(x: nat, n: nat) -> Seq<u8>
    decreases n,
{
    if n == 0 {
        Seq::empty()
    } else {
        seq![(x % 256) as u8] + little_endian_bytes(x / 256, (n - 1) as nat)
    }
}

/// The eight bytes of `id` in the given byte order.
pub open spec fn id_bytes(id: u64, big_endian: bool) -> Seq<u8> {
    if big_endian {
        little_endian_bytes(id as nat, 8).reverse()
    } else {
        little_endian_bytes(id as nat, 8)
    }
}

/// The tag that precedes the operands' ids for a compound formula.
pub open spec fn operator_tag(f: FormulaModel) -> u8 {
    match f {
        FormulaModel::Atomic(_) => 0,
        FormulaModel::Not(_) => 0,
        FormulaModel::And(_, _) => 1,
        FormulaModel::Or(_, _) => 2,
        FormulaModel::Implies(_, _) => 3,
        FormulaModel::Next(_) => 4,
        FormulaModel::Finally(_) => 5,
        FormulaModel::Globally(_) => 6,
        FormulaModel::Until(_, _) => 7,
        FormulaModel::Release(_, _) => 8,
    }
}

/// The writes that hash `f` under the layout `m`: the variant's bytes, then
/// the atom's UTF-8 bytes and `0xff`, or the operator's tag and the ids of
/// the operands in order.
pub open spec fn id_writes(f: FormulaModel, m: IdLayout) -> Seq<Seq<u8>>
    decreases f, 0nat,
{
    let head = seq![m.variant_bytes()];
    match f {
        FormulaModel::Atomic(s) => head.push(encode_utf8(s)).push(seq![0xffu8]),
        FormulaModel::Not(a) => head.push(seq![operator_tag(f)]).push(operand_bytes(*a, m.left())),
        FormulaModel::Next(a) => head.push(seq![operator_tag(f)]).push(operand_bytes(*a, m.left())),
        FormulaModel::Finally(a) => head.push(seq![operator_tag(f)]).push(operand_bytes(*a, m.left())),
        FormulaModel::Globally(a) => head.push(seq![operator_tag(f)]).push(operand_bytes(*a, m.left())),
        FormulaModel::And(a, b) => head.push(seq![operator_tag(f)]).push(operand_bytes(*a, m.left())).push(
            operand_bytes(*b, m.right()),
        ),
        FormulaModel::Or(a, b) => head.push(seq![operator_tag(f)]).push(operand_bytes(*a, m.left())).push(
            operand_bytes(*b, m.right()),
        ),
        FormulaModel::Implies(a, b) => head.push(seq![operator_tag(f)]).push(operand_bytes(*a, m.left())).push(
            operand_bytes(*b, m.right()),
        ),
        FormulaModel::Until(a, b) => head.push(seq![operator_tag(f)]).push(operand_bytes(*a, m.left())).push(
            operand_bytes(*b, m.right()),
        ),
        FormulaModel::Release(a, b) => head.push(seq![operator_tag(f)]).push(operand_bytes(*a, m.left())).push(
            operand_bytes(*b, m.right()),
        ),
    }
}

/// The id of `f` under the layout `m`: what `DefaultHasher` finishes with
/// after the writes of [`id_writes`].
pub open spec fn formula_hash(f: FormulaModel, m: IdLayout) -> u64
    decreases f, 1nat,
{
    DefaultHasher::spec_finish(id_writes(f, m))
}

/// The bytes written for an operand: its id in its layout's byte order.
pub open spec fn operand_bytes(a: FormulaModel, m: IdLayout) -> Seq<u8>
    decreases a, 2nat,
{
    id_bytes(formula_hash(a, m), m.big_endian())
}

/// The formula has an id under some layout of the machine-dependent bytes.
pub open spec fn is_formula_id(f: FormulaModel, r: u64) -> bool {
    exists|m: IdLayout| r == #[trigger] formula_hash(f, m)
}

/// The writes that hash a formula with one operand: the variant's bytes,
/// the tag, and the operand's id in some byte order.
pub open spec fn unary_id_writes(v: Seq<u8>, tag: u8, ia: u64, ba: bool) -> Seq<Seq<u8>> {
    seq![v, seq![tag], id_bytes(ia, ba)]
}

/// The writes that hash a formula with two operands: the variant's bytes,
/// the tag, and the two operands' ids in order, each in some byte order.
pub open spec fn binary_id_writes(v: Seq<u8>, tag: u8, ia: u64, ba: bool, ib: u64, bb: bool) -> Seq<Seq<u8>> {
    seq![v, seq![tag], id_bytes(ia, ba), id_bytes(ib, bb)]
}

/// `r` is what the hasher finishes with after the variant's bytes, `tag`
/// and an id of `a`.
pub open spec fn hashes_one(r: u64, tag: u8, a: FormulaModel) -> bool {
    exists|v: Seq<u8>, ia: u64, ba: bool|
        is_formula_id(a, ia) && r == DefaultHasher::spec_finish(#[trigger] unary_id_writes(v, tag, ia, ba))
}

/// `r` is what the hasher finishes with after the variant's bytes, `tag`,
/// an id of `a` and an id of `b`.
pub open spec fn hashes_two(r: u64, tag: u8, a: FormulaModel, b: FormulaModel) -> bool {
    exists|v: Seq<u8>, ia: u64, ba: bool, ib: u64, bb: bool|
        is_formula_id(a, ia) && is_formula_id(b, ib) && r == DefaultHasher::spec_finish(
            #[trigger] binary_id_writes(v, tag, ia, ba, ib, bb),
        )
}

/// What an id is made of: an atom's id hashes the variant, the name's
/// UTF-8 bytes and `0xff`; a compound formula's id hashes the variant, the
/// operator's tag (`!` 0, `&` 1, `|` 2, `->` 3, `X` 4, `F` 5, `G` 6, `U` 7,
/// `R` 8) and the ids of all its operands, in order. So two formulas that
/// differ in an operand are hashed from that operand's id.
pub proof fn lemma_id_parts(f: FormulaModel, r: u64)
    requires
        is_formula_id(f, r),
    ensures
        f matches FormulaModel::Atomic(s) ==> exists|v: Seq<u8>|
            r == DefaultHasher::spec_finish(#[trigger] seq![v, encode_utf8(s), seq![0xffu8]]),
        f matches FormulaModel::Not(a) ==> hashes_one(r, 0, *a),
        f matches FormulaModel::And(a, b) ==> hashes_two(r, 1, *a, *b),
        f matches FormulaModel::Or(a, b) ==> hashes_two(r, 2, *a, *b),
        f matches FormulaModel::Implies(a, b) ==> hashes_two(r, 3, *a, *b),
        f matches FormulaModel::Next(a) ==> hashes_one(r, 4, *a),
        f matches FormulaModel::Finally(a) ==> hashes_one(r, 5, *a),
        f matches FormulaModel::Globally(a) ==> hashes_one(r, 6, *a),
        f matches FormulaModel::Until(a, b) ==> hashes_two(r, 7, *a, *b),
        f matches FormulaModel::Release(a, b) ==> hashes_two(r, 8, *a, *b),
{
    let m = choose|m: IdLayout| r == #[trigger] formula_hash(f, m);
    let v = m.variant_bytes();
    let ml = m.left();
    let mr = m.right();
    match f {
        FormulaModel::Atomic(s) => {
            assert(id_writes(f, m) =~= seq![v, encode_utf8(s), seq![0xffu8]]);
        },
        FormulaModel::Not(a) | FormulaModel::Next(a) | FormulaModel::Finally(a) | FormulaModel::Globally(a) => {
            let ia = formula_hash(*a, ml);
            assert(is_formula_id(*a, ia));
            assert(id_writes(f, m) =~= unary_id_writes(v, operator_tag(f), ia, ml.big_endian()));
        },
        FormulaModel::And(a, b) | FormulaModel::Or(a, b) | FormulaModel::Implies(a, b) | FormulaModel::Until(a, b)
        | FormulaModel::Release(a, b) => {
            let ia = formula_hash(*a, ml);
            let ib = formula_hash(*b, mr);
            assert(is_formula_id(*a, ia));
            assert(is_formula_id(*b, ib));
            assert(id_writes(f, m) =~= binary_id_writes(v, operator_tag(f), ia, ml.big_endian(), ib, mr.big_endian()));
        },
    }
}

/// The bytes written for an operand whose id is `id`, in either byte order,
/// are its [`operand_bytes`] under some layout.
proof fn lemma_operand_layout(a: FormulaModel, id: u64, written: Seq<u8>) -> (m: IdLayout)
    requires
        is_formula_id(a, id),
        written == id_bytes(id, false) || written == id_bytes(id, true),
    ensures
        written == operand_bytes(a, m),
{
    let ma = choose|ma: IdLayout| id == formula_hash(a, ma);
    let big = written == id_bytes(id, true);
    let m = IdLayout::Node(ma.variant_bytes(), big, Box::new(ma.left()), Box::new(ma.right()));
    assert(id_writes(a, m) == id_writes(a, ma));
    m
}

/// Writes the id of the operand `a` into `hasher`, and gives the layout
/// under which the bytes written are `a`'s [`operand_bytes`].
fn feed_operand(a: &LtlFormula, hasher: &mut DefaultHasher) -> (m: Ghost<IdLayout>)
    ensures
        final(hasher)@ == old(hasher)@.push(operand_bytes(a@, m@)),
    decreases a, 1nat,
{
    let id = a.formula_id();
    feed_id(id, hasher);
    Ghost(lemma_operand_layout(a@, id, hasher@.last()))
}

impl LtlFormula {
    /// A numeric id of the formula, computed bottom-up with std's
    /// `DefaultHasher`: the variant, then either the atom's name or a tag and
    /// the ids of the operands. The bytes written for the variant and the
    /// byte order of the operands' ids depend on the machine; the contract
    /// states the id up to those ([`IdLayout`]).
    pub fn formula_id(&self) -> (r: u64)
        ensures
            is_formula_id(self@, r),
        decreases self, 0nat,
    {
        let mut hasher = DefaultHasher::new();
        let d = variant_of(self);
        feed_variant(&d, &mut hasher);
        let ghost v = hasher@[0];
        let ghost mut m = IdLayout::Leaf(v, false);
        proof {
            assert(hasher@ =~= seq![v]);
        }
        match self {
            LtlFormula::Atomic(s) => {
                feed_name(s, &mut hasher);
            },
            LtlFormula::Not(a) => {
                feed_tag(0, &mut hasher);
                let Ghost(la) = feed_operand(a, &mut hasher);
                proof {
                    m = IdLayout::Node(v, false, Box::new(la), Box::new(la));
                }
            },
            LtlFormula::And(a, b) => {
                feed_tag(1, &mut hasher);
                let Ghost(la) = feed_operand(a, &mut hasher);
                let Ghost(lb) = feed_operand(b, &mut hasher);
                proof {
                    m = IdLayout::Node(v, false, Box::new(la), Box::new(lb));
                }
            },
            LtlFormula::Or(a, b) => {
                feed_tag(2, &mut hasher);
                let Ghost(la) = feed_operand(a, &mut hasher);
                let Ghost(lb) = feed_operand(b, &mut hasher);
                proof {
                    m = IdLayout::Node(v, false, Box::new(la), Box::new(lb));
                }
            },
            LtlFormula::Implies(a, b) => {
                feed_tag(3, &mut hasher);
                let Ghost(la) = feed_operand(a, &mut hasher);
                let Ghost(lb) = feed_operand(b, &mut hasher);
                proof {
                    m = IdLayout::Node(v, false, Box::new(la), Box::new(lb));
                }
            },
            LtlFormula::Next(a) => {
                feed_tag(4, &mut hasher);
                let Ghost(la) = feed_operand(a, &mut hasher);
                proof {
                    m = IdLayout::Node(v, false, Box::new(la), Box::new(la));
                }
            },
            LtlFormula::Finally(a) => {
                feed_tag(5, &mut hasher);
                let Ghost(la) = feed_operand(a, &mut hasher);
                proof {
                    m = IdLayout::Node(v, false, Box::new(la), Box::new(la));
                }
            },
            LtlFormula::Globally(a) => {
                feed_tag(6, &mut hasher);
                let Ghost(la) = feed_operand(a, &mut hasher);
                proof {
                    m = IdLayout::Node(v, false, Box::new(la), Box::new(la));
                }
            },
            LtlFormula::Until(a, b) => {
                feed_tag(7, &mut hasher);
                let Ghost(la) = feed_operand(a, &mut hasher);
                let Ghost(lb) = feed_operand(b, &mut hasher);
                proof {
                    m = IdLayout::Node(v, false, Box::new(la), Box::new(lb));
                }
            },
            LtlFormula::Release(a, b) => {
                feed_tag(8, &mut hasher);
                let Ghost(la) = feed_operand(a, &mut hasher);
                let Ghost(lb) = feed_operand(b, &mut hasher);
                proof {
                    m = IdLayout::Node(v, false, Box::new(la), Box::new(lb));
                }
            },
        }
        proof {
            assert(hasher@ =~= id_writes(self@, m));
        }
        let r = hasher.finish();
        proof {
            assert(r == formula_hash(self@, m));
        }
        r
    }

    /// Returns `true` if this is an atomic proposition.
    pub fn is_atomic(&self) -> (r: bool)
        ensures
            r == (self@ is Atomic),
    {
        match self {
            LtlFormula::Atomic(_) => true,
            _ => false,
        }
    }

    /// The text of this formula (see [`display`]).
    pub fn to_string(&self) -> (s: String)
        ensures
            s@ == display(self@),
        decreases self,
    {
        match self {
            LtlFormula::Atomic(s) => s.clone(),
            LtlFormula::Not(inner) => {
                let body = (**inner).to_string();
                let plain = match &**inner {
                    LtlFormula::Atomic(_) | LtlFormula::Finally(_) | LtlFormula::Globally(_)
                    | LtlFormula::Next(_) => true,
                    _ => false,
                };
                if plain {
                    prefix_with("!", body.as_str())
                } else {
                    wrap_unary("!(", body.as_str())
                }
            },
            LtlFormula::And(l, r) => {
                let ls = (**l).to_string();
                let rs = (**r).to_string();
                wrap_binary(ls.as_str(), " & ", rs.as_str())
            },
            LtlFormula::Or(l, r) => {
                let ls = (**l).to_string();
                let rs = (**r).to_string();
                wrap_binary(ls.as_str(), " | ", rs.as_str())
            },
            LtlFormula::Implies(l, r) => {
                let ls = (**l).to_string();
                let rs = (**r).to_string();
                wrap_binary(ls.as_str(), " -> ", rs.as_str())
            },
            LtlFormula::Next(inner) => {
                let body = (**inner).to_string();
                wrap_unary("X(", body.as_str())
            },
            LtlFormula::Finally(inner) => {
                let body = (**inner).to_string();
                wrap_unary("F(", body.as_str())
            },
            LtlFormula::Globally(inner) => {
                let body = (**inner).to_string();
                wrap_unary("G(", body.as_str())
            },
            LtlFormula::Until(l, r) => {
                let ls = (**l).to_string();
                let rs = (**r).to_string();
                wrap_binary(ls.as_str(), " U ", rs.as_str())
            },
            LtlFormula::Release(l, r) => {
                let ls = (**l).to_string();
                let rs = (**r).to_string();
                wrap_binary(ls.as_str(), " R ", rs.as_str())
            },
        }
    }
}

} // verus!
