//! The algebra of sets of whole numbers.
//!
//! A set is a list of its members. The conjunction is the intersection and
//! the disjunction the union; the negation is the complement in the union of
//! the sets of the universe.

use vstd::prelude::*;
use crate::algebra::{universe_view, Algebra};
use crate::decimal::{lemma_list_unique, list_text, write_list};
use crate::operators::BinaryOperator;
use crate::value::{LogicValue, Operand, ValueType};

verus! {

/// `acc`, and after it the members of `source`, in order, that are in
/// `other` (where `wanted` is set) or not in it (where it is not), each
/// unless it is there already.
pub open spec fn collect(acc: Seq<i32>, source: Seq<i32>, other: Seq<i32>, wanted: bool) -> Seq<i32>
    decreases source.len(),
{
    if source.len() == 0 {
        acc
    } else {
        let before = collect(acc, source.drop_last(), other, wanted);
        let member = source.last();
        if other.contains(member) == wanted && !before.contains(member) {
            before.push(member)
        } else {
            before
        }
    }
}

/// The members of `source`, in order and as often as they occur, that are
/// in `other` (where `wanted` is set) or not in it (where it is not).
pub open spec fn select(source: Seq<i32>, other: Seq<i32>, wanted: bool) -> Seq<i32>
    decreases source.len(),
{
    if source.len() == 0 {
        Seq::empty()
    } else {
        let before = select(source.drop_last(), other, wanted);
        if other.contains(source.last()) == wanted {
            before.push(source.last())
        } else {
            before
        }
    }
}

/// The members of the first `k` sets of the universe that are not in `a`,
/// each once, in the order in which the universe holds them.
pub open spec fn complement_upto(a: Seq<i32>, universal: Seq<Seq<i32>>, k: nat) -> Seq<i32>
    decreases k,
{
    if k == 0 {
        Seq::empty()
    } else {
        collect(complement_upto(a, universal, (k - 1) as nat), universal[k - 1], a, false)
    }
}

/// Whether the universe is there and holds a member.
pub open spec fn has_members(universal: Option<Seq<Seq<i32>>>) -> bool {
    universal matches Some(sets) && exists|i: int| 0 <= i < sets.len() && (#[trigger] sets[i]).len() > 0
}

/// The complement of `a` in the universe.
pub open spec fn set_negation(a: Seq<i32>, universal: Option<Seq<Seq<i32>>>) -> Seq<i32> {
    match universal {
        Some(sets) => complement_upto(a, sets, sets.len()),
        None => Seq::empty(),
    }
}

/// The members of `a` that are in `b`, each once.
pub open spec fn set_conjunction(a: Seq<i32>, b: Seq<i32>) -> Seq<i32> {
    collect(Seq::empty(), a, b, true)
}

/// `a`, and after it the members of `b` that are not there yet.
pub open spec fn set_disjunction(a: Seq<i32>, b: Seq<i32>) -> Seq<i32> {
    collect(a, b, Seq::empty(), false)
}

/// The members of `a` that are not in `b`, and after them the members of
/// `b` that are not in `a`.
pub open spec fn set_exclusive_disjunction(a: Seq<i32>, b: Seq<i32>) -> Seq<i32> {
    select(a, b, false) + select(b, a, false)
}

/// The complement of `a`, joined with `b`.
pub open spec fn set_implication(a: Seq<i32>, b: Seq<i32>, universal: Option<Seq<Seq<i32>>>) -> Seq<i32> {
    set_disjunction(set_negation(a, universal), b)
}

/// What `a` implies `b` and `b` implies `a` have in common.
pub open spec fn set_equivalence(a: Seq<i32>, b: Seq<i32>, universal: Option<Seq<Seq<i32>>>) -> Seq<i32> {
    set_conjunction(set_implication(a, b, universal), set_implication(b, a, universal))
}

/// The algebra of sets. Its negation, and with it its implication and its
/// equivalence, need a universe that holds at least one member.
pub struct SetOperations;

impl SetOperations {
    pub fn new() -> (algebra: SetOperations) {
        SetOperations
    }
}

fn holds(set: &Vec<i32>, member: i32) -> (found: bool)
    ensures
        found == set@.contains(member),
{
    let mut i: usize = 0;
    while i < set.len()
        invariant
            i <= set.len(),
            forall|j: int| 0 <= j < i ==> set@[j] != member,
        decreases set.len() - i,
    {
        if set[i] == member {
            return true;
        }
        i += 1;
    }
    false
}

fn collect_into(acc: &mut Vec<i32>, source: &Vec<i32>, other: &Vec<i32>, wanted: bool)
    ensures
        final(acc)@ == collect(old(acc)@, source@, other@, wanted),
{
    let mut i: usize = 0;
    assert(source@.take(0) == Seq::<i32>::empty());
    while i < source.len()
        invariant
            i <= source.len(),
            acc@ == collect(old(acc)@, source@.take(i as int), other@, wanted),
        decreases source.len() - i,
    {
        let member = source[i];
        proof {
            assert(source@.take(i + 1).drop_last() == source@.take(i as int));
            assert(source@.take(i + 1).last() == member);
        }
        if holds(other, member) == wanted && !holds(acc, member) {
            acc.push(member);
        }
        i += 1;
    }
    assert(source@.take(i as int) == source@);
}

fn select_into(acc: &mut Vec<i32>, source: &Vec<i32>, other: &Vec<i32>, wanted: bool)
    ensures
        final(acc)@ == old(acc)@ + select(source@, other@, wanted),
{
    let mut i: usize = 0;
    assert(source@.take(0) == Seq::<i32>::empty());
    assert(acc@ == old(acc)@ + select(source@.take(0), other@, wanted));
    while i < source.len()
        invariant
            i <= source.len(),
            acc@ == old(acc)@ + select(source@.take(i as int), other@, wanted),
        decreases source.len() - i,
    {
        let member = source[i];
        proof {
            assert(source@.take(i + 1).drop_last() == source@.take(i as int));
            assert(source@.take(i + 1).last() == member);
        }
        if holds(other, member) == wanted {
            acc.push(member);
            assert(acc@ == old(acc)@ + select(source@.take(i as int), other@, wanted).push(member));
        }
        i += 1;
    }
    assert(source@.take(i as int) == source@);
}

fn copy_of(set: &Vec<i32>) -> (copy: Vec<i32>)
    ensures
        copy@ == set@,
{
    let mut copy: Vec<i32> = Vec::new();
    let mut i: usize = 0;
    while i < set.len()
        invariant
            i <= set.len(),
            copy@ == set@.take(i as int),
        decreases set.len() - i,
    {
        copy.push(set[i]);
        i += 1;
    }
    assert(set@.take(i as int) == set@);
    copy
}

impl Operand for Vec<i32> {
    open spec fn from_logic_spec(literal: LogicValue) -> Option<Seq<i32>> {
        match literal.value {
            ValueType::Bool(_) => None,
            ValueType::IntSet(members) => Some(members@),
        }
    }

    open spec fn render_spec(value: Seq<i32>) -> Seq<char> {
        list_text(value)
    }

    open spec fn written_spec(value: Seq<i32>) -> Seq<char> {
        list_text(value)
    }

    fn from_logic(literal: LogicValue) -> (r: Option<Vec<i32>>) {
        literal.into_set()
    }

    fn duplicate(&self) -> (r: Vec<i32>) {
        copy_of(self)
    }

    fn render(&self) -> (text: Vec<char>) {
        let mut text: Vec<char> = Vec::new();
        write_list(self, &mut text);
        assert(Seq::<char>::empty() + list_text(self@) == list_text(self@));
        text
    }

    fn same(&self, other: &Vec<i32>) -> (r: bool) {
        if self.len() != other.len() {
            return false;
        }
        let mut i: usize = 0;
        while i < self.len()
            invariant
                i <= self.len(),
                self.len() == other.len(),
                forall|j: int| 0 <= j < i ==> self@[j] == other@[j],
            decreases self.len() - i,
        {
            if self[i] != other[i] {
                return false;
            }
            i += 1;
        }
        assert(self@ =~= other@);
        true
    }

    fn written(&self) -> (text: Vec<char>) {
        self.render()
    }

    proof fn lemma_written_head(value: Seq<i32>) {
    }

    proof fn lemma_written_prefix_free(a: Seq<i32>, b: Seq<i32>, rest_a: Seq<char>, rest_b: Seq<char>) {
        lemma_list_unique(a, b, rest_a, rest_b);
    }

    proof fn lemma_render_literal(bit: bool) {
    }
}

impl Algebra<Vec<i32>> for SetOperations {
    open spec fn negation_defined(universal: Option<Seq<Seq<i32>>>) -> bool {
        has_members(universal)
    }

    open spec fn binary_defined(op: BinaryOperator, universal: Option<Seq<Seq<i32>>>) -> bool {
        match op {
            BinaryOperator::Implication => has_members(universal),
            BinaryOperator::Equivalence => has_members(universal),
            _ => true,
        }
    }

    open spec fn negation_spec(a: Seq<i32>, universal: Option<Seq<Seq<i32>>>) -> Seq<i32> {
        set_negation(a, universal)
    }

    open spec fn binary_spec(op: BinaryOperator, a: Seq<i32>, b: Seq<i32>, universal: Option<Seq<Seq<i32>>>) -> Seq<
        i32,
    > {
        match op {
            BinaryOperator::Implication => set_implication(a, b, universal),
            BinaryOperator::Disjunction => set_disjunction(a, b),
            BinaryOperator::Conjunction => set_conjunction(a, b),
            BinaryOperator::ExclusiveDisjunction => set_exclusive_disjunction(a, b),
            BinaryOperator::Equivalence => set_equivalence(a, b, universal),
        }
    }

    /// The complement of `a`, joined with `b`.
    fn implication(a: &Vec<i32>, b: &Vec<i32>, universal: Option<&Vec<Vec<i32>>>) -> (r: Vec<i32>) {
        Self::disjunction(&Self::negation(a, universal), b, universal)
    }

    /// The members of `a` or of `b`.
    fn disjunction(a: &Vec<i32>, b: &Vec<i32>, universal: Option<&Vec<Vec<i32>>>) -> (r: Vec<i32>) {
        let mut result = copy_of(a);
        let nothing: Vec<i32> = Vec::new();
        collect_into(&mut result, b, &nothing, false);
        assert(nothing@ == Seq::<i32>::empty());
        result
    }

    /// The members of the universe that are not in `a`.
    fn negation(a: &Vec<i32>, universal: Option<&Vec<Vec<i32>>>) -> (r: Vec<i32>) {
        let sets = match universal {
            Some(sets) => sets,
            None => vstd::pervasive::unreached(),
        };
        let ghost viewed = universe_view(universal)->0;
        let mut candidates: Vec<i32> = Vec::new();
        let mut k: usize = 0;
        while k < sets.len()
            invariant
                k <= sets.len(),
                viewed == universe_view(Some(sets))->0,
                viewed.len() == sets@.len(),
                candidates@ == complement_upto(a@, viewed, k as nat),
            decreases sets.len() - k,
        {
            assert(viewed[k as int] == sets@[k as int]@);
            collect_into(&mut candidates, &sets[k], a, false);
            k += 1;
        }
        candidates
    }

    /// The members of both `a` and `b`.
    fn conjunction(a: &Vec<i32>, b: &Vec<i32>, universal: Option<&Vec<Vec<i32>>>) -> (r: Vec<i32>) {
        let mut result: Vec<i32> = Vec::new();
        collect_into(&mut result, a, b, true);
        result
    }

    /// The members of `a` or of `b`, not of both.
    fn exclusive_disjunction(a: &Vec<i32>, b: &Vec<i32>, universal: Option<&Vec<Vec<i32>>>) -> (r: Vec<i32>) {
        let mut result: Vec<i32> = Vec::new();
        select_into(&mut result, a, b, false);
        select_into(&mut result, b, a, false);
        assert(result@ == select(a@, b@, false) + select(b@, a@, false));
        result
    }

    /// What `a` implies `b` and `b` implies `a` have in common.
    fn logical_equivalence(a: &Vec<i32>, b: &Vec<i32>, universal: Option<&Vec<Vec<i32>>>) -> (r: Vec<i32>) {
        let a_imp_b = Self::implication(a, b, universal);
        let b_imp_a = Self::implication(b, a, universal);
        Self::conjunction(&a_imp_b, &b_imp_a, universal)
    }
}

/// What `collect` gives holds what `acc` held and the members of `source`
/// that were wanted, and nothing else; and it holds nothing twice where
/// `acc` did not.
pub proof fn lemma_collect(acc: Seq<i32>, source: Seq<i32>, other: Seq<i32>, wanted: bool)
    ensures
        forall|e: i32|
            #[trigger] collect(acc, source, other, wanted).contains(e) <==> (acc.contains(e) || (source.contains(e)
                && other.contains(e) == wanted)),
        acc.no_duplicates() ==> collect(acc, source, other, wanted).no_duplicates(),
    decreases source.len(),
{
    let result = collect(acc, source, other, wanted);
    if source.len() > 0 {
        let front = source.drop_last();
        let before = collect(acc, front, other, wanted);
        let member = source.last();
        lemma_collect(acc, front, other, wanted);
        assert forall|e: i32| #[trigger] result.contains(e) <==> (acc.contains(e) || (source.contains(e)
            && other.contains(e) == wanted)) by {
            assert(before.contains(e) <==> (acc.contains(e) || (front.contains(e) && other.contains(e) == wanted)));
            if source.contains(e) {
                let i = choose|i: int| 0 <= i < source.len() && source[i] == e;
                if i < front.len() {
                    assert(front[i] == e);
                }
            }
            if front.contains(e) {
                let i = choose|i: int| 0 <= i < front.len() && front[i] == e;
                assert(source[i] == e);
            }
            assert(source[source.len() - 1] == member);
            if result.contains(e) && !before.contains(e) {
                let i = choose|i: int| 0 <= i < result.len() && result[i] == e;
                if i < before.len() {
                    assert(before[i] == e);
                }
            }
            if before.contains(e) {
                let i = choose|i: int| 0 <= i < before.len() && before[i] == e;
                assert(result[i] == e);
            }
            if other.contains(member) == wanted && !before.contains(member) {
                assert(result[result.len() - 1] == member);
            }
        }
    }
}

/// What `select` gives holds the members of `source` that were wanted, and
/// nothing else.
pub proof fn lemma_select(source: Seq<i32>, other: Seq<i32>, wanted: bool)
    ensures
        forall|e: i32|
            #[trigger] select(source, other, wanted).contains(e) <==> (source.contains(e) && other.contains(e)
                == wanted),
    decreases source.len(),
{
    let result = select(source, other, wanted);
    if source.len() > 0 {
        let front = source.drop_last();
        let before = select(front, other, wanted);
        let member = source.last();
        lemma_select(front, other, wanted);
        assert forall|e: i32| #[trigger] result.contains(e) <==> (source.contains(e) && other.contains(e)
            == wanted) by {
            assert(before.contains(e) <==> (front.contains(e) && other.contains(e) == wanted));
            if source.contains(e) {
                let i = choose|i: int| 0 <= i < source.len() && source[i] == e;
                if i < front.len() {
                    assert(front[i] == e);
                }
            }
            if front.contains(e) {
                let i = choose|i: int| 0 <= i < front.len() && front[i] == e;
                assert(source[i] == e);
            }
            assert(source[source.len() - 1] == member);
            if result.contains(e) && !before.contains(e) {
                let i = choose|i: int| 0 <= i < result.len() && result[i] == e;
                if i < before.len() {
                    assert(before[i] == e);
                }
            }
            if before.contains(e) {
                let i = choose|i: int| 0 <= i < before.len() && before[i] == e;
                assert(result[i] == e);
            }
            if other.contains(member) == wanted {
                assert(result[result.len() - 1] == member);
            }
        }
    }
}

/// Whether `e` is a member of one of the first `k` sets of the universe.
pub open spec fn in_universe(universal: Seq<Seq<i32>>, k: nat, e: i32) -> bool {
    exists|i: int| 0 <= i < k && i < universal.len() && (#[trigger] universal[i]).contains(e)
}

/// The conjunction is the intersection: it holds what both sets hold, each
/// member once.
pub proof fn lemma_conjunction_is_intersection(a: Seq<i32>, b: Seq<i32>)
    ensures
        forall|e: i32| #[trigger] set_conjunction(a, b).contains(e) <==> (a.contains(e) && b.contains(e)),
        set_conjunction(a, b).no_duplicates(),
{
    lemma_collect(Seq::empty(), a, b, true);
    assert forall|e: i32| !Seq::<i32>::empty().contains(e) by {}
}

/// The disjunction is the union: it holds what either set holds, and holds
/// nothing twice where `a` does not.
pub proof fn lemma_disjunction_is_union(a: Seq<i32>, b: Seq<i32>)
    ensures
        forall|e: i32| #[trigger] set_disjunction(a, b).contains(e) <==> (a.contains(e) || b.contains(e)),
        a.no_duplicates() ==> set_disjunction(a, b).no_duplicates(),
{
    lemma_collect(a, b, Seq::empty(), false);
    assert forall|e: i32| !Seq::<i32>::empty().contains(e) by {}
}

/// The exclusive disjunction is the symmetric difference: it holds what
/// one of the two sets holds and the other does not.
pub proof fn lemma_exclusive_disjunction_is_difference(a: Seq<i32>, b: Seq<i32>)
    ensures
        forall|e: i32| #[trigger] set_exclusive_disjunction(a, b).contains(e) <==> (a.contains(e) != b.contains(e)),
{
    lemma_select(a, b, false);
    lemma_select(b, a, false);
    let left = select(a, b, false);
    let right = select(b, a, false);
    let both = left + right;
    assert forall|e: i32| #[trigger] both.contains(e) <==> (left.contains(e) || right.contains(e)) by {
        if both.contains(e) {
            let i = choose|i: int| 0 <= i < both.len() && both[i] == e;
            if i < left.len() {
                assert(left[i] == e);
            } else {
                assert(right[i - left.len()] == e);
            }
        }
        if left.contains(e) {
            let i = choose|i: int| 0 <= i < left.len() && left[i] == e;
            assert(both[i] == e);
        }
        if right.contains(e) {
            let i = choose|i: int| 0 <= i < right.len() && right[i] == e;
            assert(both[left.len() + i] == e);
        }
    }
}

/// The complement holds the members of the universe that `a` does not
/// hold, each once.
pub proof fn lemma_complement(a: Seq<i32>, universal: Seq<Seq<i32>>, k: nat)
    requires
        k <= universal.len(),
    ensures
        forall|e: i32|
            #[trigger] complement_upto(a, universal, k).contains(e) <==> (in_universe(universal, k, e)
                && !a.contains(e)),
        complement_upto(a, universal, k).no_duplicates(),
    decreases k,
{
    let result = complement_upto(a, universal, k);
    if k == 0 {
        assert forall|e: i32| !Seq::<i32>::empty().contains(e) by {}
    } else {
        let before = complement_upto(a, universal, (k - 1) as nat);
        lemma_complement(a, universal, (k - 1) as nat);
        lemma_collect(before, universal[k - 1], a, false);
        assert forall|e: i32| #[trigger] result.contains(e) <==> (in_universe(universal, k, e) && !a.contains(
            e,
        )) by {
            assert(before.contains(e) <==> (in_universe(universal, (k - 1) as nat, e) && !a.contains(e)));
            if in_universe(universal, k, e) {
                let i = choose|i: int| 0 <= i < k && i < universal.len() && (#[trigger] universal[i]).contains(e);
                if i < k - 1 {
                    assert(in_universe(universal, (k - 1) as nat, e));
                }
            }
            if in_universe(universal, (k - 1) as nat, e) {
                let i = choose|i: int|
                    0 <= i < k - 1 && i < universal.len() && (#[trigger] universal[i]).contains(e);
                assert(universal[i].contains(e));
            }
            if universal[k - 1].contains(e) {
                assert(in_universe(universal, k, e));
            }
        }
    }
}

/// The negation is the complement in the universe.
pub proof fn lemma_negation_is_complement(a: Seq<i32>, universal: Seq<Seq<i32>>)
    ensures
        forall|e: i32|
            #[trigger] set_negation(a, Some(universal)).contains(e) <==> (in_universe(
                universal,
                universal.len(),
                e,
            ) && !a.contains(e)),
        set_negation(a, Some(universal)).no_duplicates(),
{
    lemma_complement(a, universal, universal.len());
}

} // verus!
