//! Families of dragonducks, told by their DNA.
//!
//! A dragonduck is the child of two others where each letter of its DNA
//! is the letter that one of the two has at the same place.

use vstd::prelude::*;
use vstd::string::StringSliceAdditionalSpecFns;
use crate::text::contents;
use crate::text::find_byte;
use crate::text::lines;
use crate::text::lines_of;
use crate::text::parse_u32;
use crate::text::parsed_unsigned;
use crate::text::split_once;
use crate::text::to_vec;
use crate::text::trim;
use crate::text::trimmed;
use crate::text::ParseError;

verus! {

/// The DNA of a dragonduck: its number and its letters.
#[derive(Debug, Hash, Eq, PartialEq)]
pub struct DeoxyribonucleicAcid {
    pub id: u32,
    pub sequence: Vec<u8>,
}

/// What a DNA holds: a number and a sequence of letters.
pub struct Dna {
    pub id: u32,
    pub sequence: Seq<u8>,
}

impl View for DeoxyribonucleicAcid {
    type V = Dna;

    open spec fn view(&self) -> Dna {
        Dna { id: self.id, sequence: self.sequence@ }
    }
}

impl Clone for DeoxyribonucleicAcid {
    fn clone(&self) -> (copy: Self)
        ensures
            copy@ == self@,
    {
        let mut sequence: Vec<u8> = Vec::new();
        let mut i: usize = 0;
        while i < self.sequence.len()
            invariant
                i <= self.sequence.len(),
                sequence@ == self.sequence@.take(i as int),
            decreases self.sequence.len() - i,
        {
            sequence.push(self.sequence[i]);
            assert(sequence@ =~= self.sequence@.take(i + 1));
            i += 1;
        }
        assert(self.sequence@.take(i as int) =~= self.sequence@);
        DeoxyribonucleicAcid { id: self.id, sequence }
    }
}

/// Whether each of the letters of `child` is the letter of `first` or the
/// letter of `second` at the same place.
pub open spec fn inherits(child: Seq<u8>, first: Seq<u8>, second: Seq<u8>) -> bool {
    forall|i: int| 0 <= i < child.len() ==> child[i] == first[i] || child[i] == second[i]
}

/// The number of places among the first `count` at which `child` and
/// `parent` have the same letter.
pub open spec fn similarity_up_to(child: Seq<u8>, parent: Seq<u8>, count: int) -> nat
    decreases count,
{
    if count <= 0 {
        0
    } else if child[count - 1] == parent[count - 1] {
        similarity_up_to(child, parent, count - 1) + 1
    } else {
        similarity_up_to(child, parent, count - 1)
    }
}

/// The number of places at which `child` and `parent` have the same
/// letter.
pub open spec fn similarity(child: Seq<u8>, parent: Seq<u8>) -> nat {
    similarity_up_to(child, parent, child.len() as int)
}

/// Whether every DNA of `dragonducks` has at least `length` letters.
pub open spec fn all_at_least(dragonducks: Seq<DeoxyribonucleicAcid>, length: int) -> bool {
    forall|k: int|
        0 <= k < dragonducks.len() ==> (#[trigger] dragonducks[k]).sequence@.len() >= length
}

/// Whether every DNA of `dragonducks` has as many letters as every other.
pub open spec fn all_equally_long(dragonducks: Seq<DeoxyribonucleicAcid>) -> bool {
    forall|k: int, l: int|
        0 <= k < dragonducks.len() && 0 <= l < dragonducks.len() ==> (
        #[trigger] dragonducks[k]).sequence@.len() == (#[trigger] dragonducks[l]).sequence@.len()
}

/// Whether the dragonducks at `i` and `j` are others than `child` and
/// can be its parents.
pub open spec fn is_parent_pair(
    child: &DeoxyribonucleicAcid,
    dragonducks: Seq<DeoxyribonucleicAcid>,
    i: int,
    j: int,
) -> bool {
    &&& 0 <= i < j < dragonducks.len()
    &&& dragonducks[i].id != child.id
    &&& dragonducks[j].id != child.id
    &&& inherits(child.sequence@, dragonducks[i].sequence@, dragonducks[j].sequence@)
}

/// Whether the pair `i`, `j` comes before the pair `k`, `l` where the
/// pairs are tried with the first index rising, and under one first index
/// the second rising.
pub open spec fn tried_before(i: int, j: int, k: int, l: int) -> bool {
    i < k || (i == k && j < l)
}

/// Whether `i`, `j` is the first pair of possible parents of `child`.
pub open spec fn is_first_parent_pair(
    child: &DeoxyribonucleicAcid,
    dragonducks: Seq<DeoxyribonucleicAcid>,
    i: int,
    j: int,
) -> bool {
    &&& is_parent_pair(child, dragonducks, i, j)
    &&& forall|k: int, l: int|
        tried_before(k, l, i, j) ==> !#[trigger] is_parent_pair(child, dragonducks, k, l)
}

/// Whether `child` has possible parents among `dragonducks`.
pub open spec fn has_parents(
    child: &DeoxyribonucleicAcid,
    dragonducks: Seq<DeoxyribonucleicAcid>,
) -> bool {
    exists|i: int, j: int| is_parent_pair(child, dragonducks, i, j)
}

/// The similarity of `child` to the one of two parents times its
/// similarity to the other.
pub open spec fn similarity_product(child: Seq<u8>, first: Seq<u8>, second: Seq<u8>) -> nat {
    similarity(child, first) * similarity(child, second)
}

impl DeoxyribonucleicAcid {
    /// The first two of `dragonducks` that can be the parents of this
    /// dragonduck, or `None` if no two can. The pairs are tried with the
    /// first of the two going through the list, and under each first the
    /// second going through the rest of the list.
    pub fn find_parents(&self, dragonducks: &[DeoxyribonucleicAcid]) -> (parents: Option<
        [DeoxyribonucleicAcid; 2],
    >)
        requires
            all_at_least(dragonducks@, self.sequence@.len() as int),
        ensures
            match parents {
                Some(pair) => exists|i: int, j: int|
                    {
                        &&& #[trigger] is_first_parent_pair(self, dragonducks@, i, j)
                        &&& pair[0]@ == dragonducks@[i]@
                        &&& pair[1]@ == dragonducks@[j]@
                    },
                None => !has_parents(self, dragonducks@),
            },
    {
        let mut i: usize = 0;
        while i < dragonducks.len()
            invariant
                i <= dragonducks.len(),
                all_at_least(dragonducks@, self.sequence@.len() as int),
                forall|k: int, l: int|
                    tried_before(k, l, i as int, 0) ==> !#[trigger] is_parent_pair(
                        self,
                        dragonducks@,
                        k,
                        l,
                    ),
            decreases dragonducks.len() - i,
        {
            if dragonducks[i].id != self.id {
                let mut j: usize = i + 1;
                while j < dragonducks.len()
                    invariant
                        i < j <= dragonducks.len(),
                        dragonducks[i as int].id != self.id,
                        all_at_least(dragonducks@, self.sequence@.len() as int),
                        forall|k: int, l: int|
                            tried_before(k, l, i as int, j as int) ==> !#[trigger] is_parent_pair(
                                self,
                                dragonducks@,
                                k,
                                l,
                            ),
                    decreases dragonducks.len() - j,
                {
                    if dragonducks[j].id != self.id {
                        let parents = [&dragonducks[i], &dragonducks[j]];
                        if self.are_valid_parents(&parents) {
                            assert(is_first_parent_pair(self, dragonducks@, i as int, j as int));
                            return Some([dragonducks[i].clone(), dragonducks[j].clone()]);
                        }
                    }
                    j += 1;
                }
            }
            i += 1;
        }
        None
    }

    /// Whether each letter of this DNA is the letter of one of the two
    /// `parents` at the same place.
    pub fn are_valid_parents(&self, parents: &[&DeoxyribonucleicAcid; 2]) -> (valid: bool)
        requires
            parents[0].sequence@.len() >= self.sequence@.len(),
            parents[1].sequence@.len() >= self.sequence@.len(),
        ensures
            valid == inherits(self.sequence@, parents[0].sequence@, parents[1].sequence@),
    {
        let mut i: usize = 0;
        while i < self.sequence.len()
            invariant
                i <= self.sequence.len(),
                parents[0].sequence@.len() >= self.sequence@.len(),
                parents[1].sequence@.len() >= self.sequence@.len(),
                forall|k: int|
                    0 <= k < i ==> self.sequence@[k] == parents[0].sequence@[k]
                        || self.sequence@[k] == parents[1].sequence@[k],
            decreases self.sequence.len() - i,
        {
            let element = self.sequence[i];
            if !(element == parents[0].sequence[i] || element == parents[1].sequence[i]) {
                return false;
            }
            i += 1;
        }
        true
    }

    /// The number of places at which this DNA and that of `parent` have
    /// the same letter.
    pub fn count_similarity_degree(&self, parent: &DeoxyribonucleicAcid) -> (count: usize)
        requires
            parent.sequence@.len() >= self.sequence@.len(),
        ensures
            count == similarity(self.sequence@, parent.sequence@),
            count <= self.sequence@.len(),
    {
        let mut count: usize = 0;
        let mut i: usize = 0;
        while i < self.sequence.len()
            invariant
                i <= self.sequence.len(),
                parent.sequence@.len() >= self.sequence@.len(),
                count <= i,
                count == similarity_up_to(self.sequence@, parent.sequence@, i as int),
            decreases self.sequence.len() - i,
        {
            if self.sequence[i] == parent.sequence[i] {
                count += 1;
            }
            i += 1;
        }
        count
    }
}

/// How like its parents a dragonduck is: its similarity to the one of its
/// first possible parents times its similarity to the other; zero for a
/// dragonduck without possible parents.
pub open spec fn degree(child: &DeoxyribonucleicAcid, dragonducks: Seq<DeoxyribonucleicAcid>) -> nat {
    if has_parents(child, dragonducks) {
        let (i, j) = choose|i: int, j: int| is_first_parent_pair(child, dragonducks, i, j);
        similarity_product(child.sequence@, dragonducks[i].sequence@, dragonducks[j].sequence@)
    } else {
        0
    }
}

/// The sum of the degrees of the first `count` of `dragonducks`.
pub open spec fn total_degree(dragonducks: Seq<DeoxyribonucleicAcid>, count: int) -> nat
    decreases count,
{
    if count <= 0 {
        0
    } else {
        total_degree(dragonducks, count - 1) + degree(&dragonducks[count - 1], dragonducks)
    }
}

/// Whether the dragonduck at `k` is the first with possible parents.
pub open spec fn is_first_child(dragonducks: Seq<DeoxyribonucleicAcid>, k: int) -> bool {
    &&& 0 <= k < dragonducks.len()
    &&& has_parents(&dragonducks[k], dragonducks)
    &&& forall|l: int| 0 <= l < k ==> !has_parents(&#[trigger] dragonducks[l], dragonducks)
}

/// Among the first pairs of possible parents there is only one.
pub proof fn lemma_first_parent_pair_unique(
    child: &DeoxyribonucleicAcid,
    dragonducks: Seq<DeoxyribonucleicAcid>,
    i: int,
    j: int,
)
    requires
        is_first_parent_pair(child, dragonducks, i, j),
    ensures
        has_parents(child, dragonducks),
        degree(child, dragonducks) == similarity_product(
            child.sequence@,
            dragonducks[i].sequence@,
            dragonducks[j].sequence@,
        ),
{
    let (k, l) = choose|k: int, l: int| is_first_parent_pair(child, dragonducks, k, l);
    assert(is_parent_pair(child, dragonducks, i, j));
    assert(is_parent_pair(child, dragonducks, k, l));
    assert(!tried_before(k, l, i, j));
    assert(!tried_before(i, j, k, l));
}

/// The sum of the degrees only grows with the dragonducks counted.
pub proof fn lemma_total_degree_grows(
    dragonducks: Seq<DeoxyribonucleicAcid>,
    fewer: int,
    more: int,
)
    requires
        fewer <= more,
    ensures
        total_degree(dragonducks, fewer) <= total_degree(dragonducks, more),
    decreases more - fewer,
{
    if fewer < more {
        lemma_total_degree_grows(dragonducks, fewer, more - 1);
    }
}

/// How like its first possible parents the dragonduck is, or `None` if it
/// has no possible parents.
fn degree_of(child: &DeoxyribonucleicAcid, dragonducks: &[DeoxyribonucleicAcid]) -> (result:
    Option<usize>)
    requires
        all_at_least(dragonducks@, child.sequence@.len() as int),
        degree(child, dragonducks@) <= usize::MAX,
    ensures
        match result {
            Some(product) => has_parents(child, dragonducks@) && product == degree(
                child,
                dragonducks@,
            ),
            None => !has_parents(child, dragonducks@),
        },
{
    match child.find_parents(dragonducks) {
        Some(parents) => {
            proof {
                let (i, j) = choose|i: int, j: int|
                    {
                        &&& #[trigger] is_first_parent_pair(child, dragonducks@, i, j)
                        &&& parents[0]@ == dragonducks@[i]@
                        &&& parents[1]@ == dragonducks@[j]@
                    };
                lemma_first_parent_pair_unique(child, dragonducks@, i, j);
            }
            let first = child.count_similarity_degree(&parents[0]);
            let second = child.count_similarity_degree(&parents[1]);
            Some(first * second)
        },
        None => None,
    }
}

/// How like its parents the first dragonduck with possible parents is.
/// Fails where no dragonduck has possible parents.
pub fn part1(input: &[DeoxyribonucleicAcid]) -> (result: Result<usize, String>)
    requires
        all_equally_long(input@),
        forall|k: int| 0 <= k < input@.len() ==> degree(&#[trigger] input@[k], input@) <= usize::MAX,
    ensures
        match result {
            Ok(product) => exists|k: int|
                #[trigger] is_first_child(input@, k) && product == degree(&input@[k], input@),
            Err(message) => message@ == "Couldn't find a valid child"@ && forall|k: int|
                0 <= k < input@.len() ==> !has_parents(&#[trigger] input@[k], input@),
        },
{
    let mut k: usize = 0;
    while k < input.len()
        invariant
            k <= input.len(),
            all_equally_long(input@),
            forall|l: int|
                0 <= l < input@.len() ==> degree(&#[trigger] input@[l], input@) <= usize::MAX,
            forall|l: int| 0 <= l < k ==> !has_parents(&#[trigger] input@[l], input@),
        decreases input.len() - k,
    {
        assert(all_at_least(input@, input@[k as int].sequence@.len() as int));
        match degree_of(&input[k], input) {
            Some(product) => {
                assert(is_first_child(input@, k as int));
                return Ok(product);
            },
            None => {},
        }
        k += 1;
    }
    Err("Couldn't find a valid child".to_string())
}

/// The sum, over the dragonducks with possible parents, of how like its
/// parents each is.
pub fn part2(input: &[DeoxyribonucleicAcid]) -> (sum: usize)
    requires
        all_equally_long(input@),
        total_degree(input@, input@.len() as int) <= usize::MAX,
    ensures
        sum == total_degree(input@, input@.len() as int),
{
    let mut sum: usize = 0;
    let mut k: usize = 0;
    while k < input.len()
        invariant
            k <= input.len(),
            all_equally_long(input@),
            total_degree(input@, input@.len() as int) <= usize::MAX,
            sum == total_degree(input@, k as int),
        decreases input.len() - k,
    {
        proof {
            assert(all_at_least(input@, input@[k as int].sequence@.len() as int));
            lemma_total_degree_grows(input@, k + 1, input@.len() as int);
        }
        match degree_of(&input[k], input) {
            Some(product) => {
                sum = sum + product;
            },
            None => {},
        }
        k += 1;
    }
    sum
}

/// A dragonduck: its DNA and, where they are known, the DNA of its two
/// parents.
#[derive(Debug, Hash, Eq, PartialEq)]
pub struct Dragonduck {
    pub dna: DeoxyribonucleicAcid,
    pub parents: Option<[DeoxyribonucleicAcid; 2]>,
}

/// What a dragonduck holds.
pub struct Duck {
    pub dna: Dna,
    pub parents: Option<(Dna, Dna)>,
}

impl View for Dragonduck {
    type V = Duck;

    open spec fn view(&self) -> Duck {
        Duck {
            dna: self.dna@,
            parents: match self.parents {
                Some(pair) => Some((pair[0]@, pair[1]@)),
                None => None,
            },
        }
    }
}

impl Clone for Dragonduck {
    fn clone(&self) -> (copy: Self)
        ensures
            copy@ == self@,
    {
        let parents = match &self.parents {
            Some(pair) => Some([pair[0].clone(), pair[1].clone()]),
            None => None,
        };
        Dragonduck { dna: self.dna.clone(), parents }
    }
}

/// Whether `duck` names the dragonduck with number `id` as a parent.
pub open spec fn names_parent(duck: Duck, id: u32) -> bool {
    match duck.parents {
        Some((first, second)) => first.id == id || second.id == id,
        None => false,
    }
}

/// The predicate that holds of the dragonducks that name the dragonduck
/// with number `id` as a parent.
pub open spec fn is_child_of(id: u32) -> spec_fn(Dragonduck) -> bool {
    |duck: Dragonduck| names_parent(duck@, id)
}

/// What each of `dragonducks` holds.
pub open spec fn ducks(dragonducks: Seq<Dragonduck>) -> Seq<Duck> {
    Seq::new(dragonducks.len(), |i: int| dragonducks[i]@)
}

impl Dragonduck {
    /// Whether this dragonduck names the dragonduck with number `id` as a
    /// parent.
    pub fn has_parent(&self, id: u32) -> (named: bool)
        ensures
            named == names_parent(self@, id),
    {
        match &self.parents {
            Some(pair) => pair[0].id == id || pair[1].id == id,
            None => false,
        }
    }

    /// The dragonducks of `dragonducks` that name this one as a parent, in
    /// their order.
    pub fn find_children(&self, dragonducks: &[Dragonduck]) -> (children: Vec<Dragonduck>)
        ensures
            ducks(children@) == ducks(dragonducks@.filter(is_child_of(self.dna.id))),
    {
        let ghost pred = is_child_of(self.dna.id);
        let mut children: Vec<Dragonduck> = Vec::new();
        let mut i: usize = 0;
        assert(dragonducks@.take(0) =~= Seq::<Dragonduck>::empty());
        assert(ducks(children@) =~= ducks(dragonducks@.take(0).filter(pred)));
        while i < dragonducks.len()
            invariant
                i <= dragonducks.len(),
                pred == is_child_of(self.dna.id),
                ducks(children@) == ducks(dragonducks@.take(i as int).filter(pred)),
            decreases dragonducks.len() - i,
        {
            let ghost seen = dragonducks@.take(i as int);
            let ghost before = children@;
            proof {
                assert(dragonducks@.take(i + 1) =~= seen.push(dragonducks[i as int]));
                seen.lemma_filter_push(dragonducks[i as int], pred);
            }
            if dragonducks[i].has_parent(self.dna.id) {
                children.push(dragonducks[i].clone());
                assert(ducks(children@) =~= ducks(before).push(dragonducks[i as int]@));
                assert(ducks(seen.filter(pred).push(dragonducks[i as int])) =~= ducks(
                    seen.filter(pred),
                ).push(dragonducks[i as int]@));
            }
            i += 1;
        }
        assert(dragonducks@.take(i as int) =~= dragonducks@);
        children
    }
}

/// Whether some member of `family` has the number `id`.
pub open spec fn has_id(family: Seq<Dragonduck>, id: u32) -> bool {
    exists|k: int| 0 <= k < family.len() && (#[trigger] family[k]).dna.id == id
}

/// Whether one of the two names the other as a parent.
pub open spec fn linked(a: Duck, b: Duck) -> bool {
    names_parent(a, b.dna.id) || names_parent(b, a.dna.id)
}

/// Whether the member at `k` is one of `dragonducks` and is linked to a
/// member before it.
pub open spec fn comes_from(family: Seq<Dragonduck>, dragonducks: Seq<Dragonduck>, k: int) -> bool {
    &&& exists|i: int| 0 <= i < dragonducks.len() && (#[trigger] dragonducks[i])@ == family[k]@
    &&& exists|j: int| 0 <= j < k && linked((#[trigger] family[j])@, family[k]@)
}

/// Whether `family` is a lineage of `root` among `dragonducks`: it starts
/// with `root`, and each further member is one of `dragonducks` and is
/// linked to a member before it.
pub open spec fn is_lineage(family: Seq<Dragonduck>, root: Duck, dragonducks: Seq<Dragonduck>) -> bool {
    &&& family.len() > 0
    &&& family[0]@ == root
    &&& forall|k: int| 0 < k < family.len() ==> #[trigger] comes_from(family, dragonducks, k)
}

/// Whether no two members of `family` have the same number.
pub open spec fn distinct_ids(family: Seq<Dragonduck>) -> bool {
    forall|j: int, k: int|
        0 <= j < k < family.len() ==> (#[trigger] family[j]).dna.id != (#[trigger] family[k]).dna.id
}

/// Whether the parents that the member at `m` names are in `family` by
/// their numbers.
pub open spec fn parents_joined(family: Seq<Dragonduck>, m: int) -> bool {
    forall|id: u32| #[trigger] names_parent(family[m]@, id) ==> has_id(family, id)
}

/// Whether the first `count` of `dragonducks` that name the member at `m`
/// as a parent are in `family` by their numbers.
pub open spec fn children_joined(
    family: Seq<Dragonduck>,
    dragonducks: Seq<Dragonduck>,
    m: int,
    count: int,
) -> bool {
    forall|i: int|
        0 <= i < count && names_parent((#[trigger] dragonducks[i])@, family[m].dna.id) ==> has_id(
            family,
            dragonducks[i].dna.id,
        )
}

/// Whether the parents and the children of the member at `m` are in
/// `family` by their numbers.
pub open spec fn relatives_joined(family: Seq<Dragonduck>, dragonducks: Seq<Dragonduck>, m: int) -> bool {
    &&& parents_joined(family, m)
    &&& children_joined(family, dragonducks, m, dragonducks.len() as int)
}

/// Whether `family` is the family of `root` among `dragonducks`: a lineage
/// of `root` in which each number occurs once, and which holds the
/// parents and the children of each of its members.
pub open spec fn is_family(family: Seq<Dragonduck>, root: Duck, dragonducks: Seq<Dragonduck>) -> bool {
    &&& is_lineage(family, root, dragonducks)
    &&& distinct_ids(family)
    &&& forall|m: int| 0 <= m < family.len() ==> #[trigger] relatives_joined(family, dragonducks, m)
}

/// Whether `duck` names a parent that is not the dragonduck with number
/// `root_id` and that is none of `dragonducks`.
pub open spec fn names_stranger(duck: Duck, root_id: u32, dragonducks: Seq<Dragonduck>) -> bool {
    exists|id: u32|
        #[trigger] names_parent(duck, id) && id != root_id && forall|i: int|
            0 <= i < dragonducks.len() ==> (#[trigger] dragonducks[i]).dna.id != id
}

/// The number of the `dragonducks` whose number no member of `family`
/// has.
pub open spec fn unseen(dragonducks: Seq<Dragonduck>, family: Seq<Dragonduck>) -> nat
    decreases dragonducks.len(),
{
    if dragonducks.len() == 0 {
        0
    } else if has_id(family, dragonducks.last().dna.id) {
        unseen(dragonducks.drop_last(), family)
    } else {
        unseen(dragonducks.drop_last(), family) + 1
    }
}

/// A member more leaves the numbers of the others in the family.
pub proof fn lemma_has_id_push(family: Seq<Dragonduck>, x: Dragonduck, id: u32)
    ensures
        has_id(family, id) ==> has_id(family.push(x), id),
        has_id(family.push(x), x.dna.id),
        has_id(family.push(x), id) ==> has_id(family, id) || id == x.dna.id,
{
    let grown = family.push(x);
    if has_id(family, id) {
        let k = choose|k: int| 0 <= k < family.len() && (#[trigger] family[k]).dna.id == id;
        assert(grown[k].dna.id == id);
    }
    assert(grown[family.len() as int].dna.id == x.dna.id);
    if has_id(grown, id) {
        let k = choose|k: int| 0 <= k < grown.len() && (#[trigger] grown[k]).dna.id == id;
        if k < family.len() {
            assert(family[k].dna.id == id);
        }
    }
}

/// A member more leaves no more dragonducks unseen.
pub proof fn lemma_unseen_falls(dragonducks: Seq<Dragonduck>, family: Seq<Dragonduck>, x: Dragonduck)
    ensures
        unseen(dragonducks, family.push(x)) <= unseen(dragonducks, family),
    decreases dragonducks.len(),
{
    if dragonducks.len() > 0 {
        lemma_unseen_falls(dragonducks.drop_last(), family, x);
        lemma_has_id_push(family, x, dragonducks.last().dna.id);
    }
}

/// No more dragonducks are unseen than there are.
pub proof fn lemma_unseen_bounded(dragonducks: Seq<Dragonduck>, family: Seq<Dragonduck>)
    ensures
        unseen(dragonducks, family) <= dragonducks.len(),
    decreases dragonducks.len(),
{
    if dragonducks.len() > 0 {
        lemma_unseen_bounded(dragonducks.drop_last(), family);
    }
}

/// A new member that is one of the dragonducks leaves fewer of them
/// unseen.
pub proof fn lemma_unseen_shrinks(
    dragonducks: Seq<Dragonduck>,
    family: Seq<Dragonduck>,
    x: Dragonduck,
    i: int,
)
    requires
        0 <= i < dragonducks.len(),
        dragonducks[i].dna.id == x.dna.id,
        !has_id(family, x.dna.id),
    ensures
        unseen(dragonducks, family.push(x)) < unseen(dragonducks, family),
    decreases dragonducks.len(),
{
    lemma_has_id_push(family, x, dragonducks.last().dna.id);
    if i == dragonducks.len() - 1 {
        lemma_unseen_falls(dragonducks.drop_last(), family, x);
    } else {
        lemma_unseen_shrinks(dragonducks.drop_last(), family, x, i);
    }
}

/// What a new member, one of the dragonducks and linked to a member,
/// keeps of a lineage.
pub proof fn lemma_join(
    family: Seq<Dragonduck>,
    x: Dragonduck,
    root: Duck,
    dragonducks: Seq<Dragonduck>,
    i: int,
    j: int,
)
    requires
        is_lineage(family, root, dragonducks),
        distinct_ids(family),
        0 <= i < dragonducks.len(),
        dragonducks[i]@ == x@,
        0 <= j < family.len(),
        linked(family[j]@, x@),
        !has_id(family, x.dna.id),
    ensures
        is_lineage(family.push(x), root, dragonducks),
        distinct_ids(family.push(x)),
        unseen(dragonducks, family.push(x)) < unseen(dragonducks, family),
        forall|m: int|
            0 <= m < family.len() && parents_joined(family, m) ==> parents_joined(
                family.push(x),
                m,
            ),
        forall|m: int, count: int|
            0 <= m < family.len() && children_joined(family, dragonducks, m, count)
                ==> children_joined(family.push(x), dragonducks, m, count),
{
    let grown = family.push(x);
    lemma_unseen_shrinks(dragonducks, family, x, i);
    assert forall|k: int| 0 < k < grown.len() implies #[trigger] comes_from(
        grown,
        dragonducks,
        k,
    ) by {
        if k < family.len() {
            assert(comes_from(family, dragonducks, k));
            let a = choose|a: int|
                0 <= a < dragonducks.len() && (#[trigger] dragonducks[a])@ == family[k]@;
            let b = choose|b: int| 0 <= b < k && linked((#[trigger] family[b])@, family[k]@);
            assert(dragonducks[a]@ == grown[k]@);
            assert(linked(grown[b]@, grown[k]@));
        } else {
            assert(dragonducks[i]@ == grown[k]@);
            assert(linked(grown[j]@, grown[k]@));
        }
    }
    assert forall|a: int, b: int| 0 <= a < b < grown.len() implies (#[trigger] grown[a]).dna.id != (
    #[trigger] grown[b]).dna.id by {
        if b == family.len() {
            assert(family[a].dna.id != x.dna.id);
        } else {
            assert(family[a].dna.id != family[b].dna.id);
        }
    }
    assert forall|m: int| 0 <= m < family.len() && parents_joined(family, m) implies parents_joined(
        grown,
        m,
    ) by {
        assert forall|id: u32| #[trigger] names_parent(grown[m]@, id) implies has_id(grown, id) by {
            assert(names_parent(family[m]@, id));
            lemma_has_id_push(family, x, id);
        }
    }
    assert forall|m: int, count: int|
        0 <= m < family.len() && children_joined(
            family,
            dragonducks,
            m,
            count,
        ) implies children_joined(grown, dragonducks, m, count) by {
        assert forall|c: int|
            0 <= c < count && names_parent(
                (#[trigger] dragonducks[c])@,
                grown[m].dna.id,
            ) implies has_id(grown, dragonducks[c].dna.id) by {
            lemma_has_id_push(family, x, dragonducks[c].dna.id);
        }
    }
}

/// Whether some member of `family` has the number `id`.
fn contains_id(family: &Vec<Dragonduck>, id: u32) -> (found: bool)
    ensures
        found == has_id(family@, id),
{
    let mut k: usize = 0;
    while k < family.len()
        invariant
            k <= family.len(),
            forall|l: int| 0 <= l < k ==> (#[trigger] family@[l]).dna.id != id,
        decreases family.len() - k,
    {
        if family[k].dna.id == id {
            return true;
        }
        k += 1;
    }
    false
}

/// The index of the first of `dragonducks` with the number `id`.
fn find_by_id(dragonducks: &[Dragonduck], id: u32) -> (found: Option<usize>)
    ensures
        match found {
            Some(i) => i < dragonducks@.len() && dragonducks@[i as int].dna.id == id,
            None => forall|i: int|
                0 <= i < dragonducks@.len() ==> (#[trigger] dragonducks@[i]).dna.id != id,
        },
{
    let mut i: usize = 0;
    while i < dragonducks.len()
        invariant
            i <= dragonducks.len(),
            forall|l: int| 0 <= l < i ==> (#[trigger] dragonducks@[l]).dna.id != id,
        decreases dragonducks.len() - i,
    {
        if dragonducks[i].dna.id == id {
            return Some(i);
        }
        i += 1;
    }
    None
}

impl Dragonduck {
    /// The family of this dragonduck among `dragonducks`: the dragonduck
    /// itself, and whoever a member names as a parent or has as a child.
    /// A parent is looked up among `dragonducks` by its number, and each
    /// number joins the family once.
    ///
    /// Fails where a member names a parent that is not among
    /// `dragonducks`.
    pub fn build_family(&self, dragonducks: &[Dragonduck]) -> (result: Result<
        Vec<Dragonduck>,
        String,
    >)
        ensures
            match result {
                Ok(family) => is_family(family@, self@, dragonducks@) && family@.len()
                    <= dragonducks@.len() + 1,
                Err(message) => message@ == "Couldn't find parent by id"@ && exists|
                    chain: Seq<Dragonduck>,
                |
                    #[trigger] is_lineage(chain, self@, dragonducks@) && names_stranger(
                        chain.last()@,
                        self.dna.id,
                        dragonducks@,
                    ),
            },
    {
        let mut family: Vec<Dragonduck> = Vec::new();
        family.push(self.clone());
        proof {
            lemma_unseen_bounded(dragonducks@, family@);
        }
        let mut next: usize = 0;
        while next < family.len()
            invariant
                next <= family.len(),
                unseen(dragonducks@, family@) + family.len() <= dragonducks@.len() + 1,
                is_lineage(family@, self@, dragonducks@),
                distinct_ids(family@),
                forall|m: int| 0 <= m < next ==> #[trigger] relatives_joined(family@, dragonducks@, m),
            decreases unseen(dragonducks@, family@) + family.len() - next,
        {
            let ghost start = unseen(dragonducks@, family@) + family.len();
            let current_id = family[next].dna.id;
            let parent_ids: Option<(u32, u32)> = match &family[next].parents {
                Some(pair) => Some((pair[0].id, pair[1].id)),
                None => None,
            };
            let mut pending: Vec<u32> = Vec::new();
            match parent_ids {
                Some((first, second)) => {
                    pending.push(first);
                    pending.push(second);
                },
                None => {},
            }
            assert forall|id: u32| #[trigger]
                names_parent(family@[next as int]@, id) implies exists|q: int|
                0 <= q < pending.len() && #[trigger] pending[q] == id by {
                if id == pending[0] {
                } else {
                    assert(pending[1] == id);
                }
            }
            let mut p: usize = 0;
            while p < pending.len()
                invariant
                    p <= pending.len(),
                    next < family.len(),
                    family@[next as int].dna.id == current_id,
                    is_lineage(family@, self@, dragonducks@),
                    distinct_ids(family@),
                    forall|m: int|
                        0 <= m < next ==> #[trigger] relatives_joined(family@, dragonducks@, m),
                    forall|id: u32|
                        #[trigger] names_parent(family@[next as int]@, id) ==> exists|q: int|
                            0 <= q < pending.len() && #[trigger] pending[q] == id,
                    forall|q: int|
                        0 <= q < pending.len() ==> names_parent(
                            family@[next as int]@,
                            #[trigger] pending[q],
                        ),
                    forall|q: int| 0 <= q < p ==> has_id(family@, #[trigger] pending[q]),
                    unseen(dragonducks@, family@) + family.len() <= start,
                decreases pending.len() - p,
            {
                let id = pending[p];
                if !contains_id(&family, id) {
                    match find_by_id(dragonducks, id) {
                        Some(i) => {
                            let parent = dragonducks[i].clone();
                            proof {
                                lemma_join(
                                    family@,
                                    parent,
                                    self@,
                                    dragonducks@,
                                    i as int,
                                    next as int,
                                );
                                assert forall|q: int| 0 <= q < p implies has_id(
                                    family@.push(parent),
                                    #[trigger] pending[q],
                                ) by {
                                    lemma_has_id_push(family@, parent, pending[q]);
                                }
                                lemma_has_id_push(family@, parent, id);
                                assert forall|m: int| 0 <= m < next implies #[trigger] relatives_joined(
                                    family@.push(parent),
                                    dragonducks@,
                                    m,
                                ) by {
                                    assert(relatives_joined(family@, dragonducks@, m));
                                }
                            }
                            family.push(parent);
                        },
                        None => {
                            proof {
                                let chain = family@.take(next + 1);
                                assert forall|k: int| 0 < k < chain.len() implies #[trigger] comes_from(
                                    chain,
                                    dragonducks@,
                                    k,
                                ) by {
                                    assert(comes_from(family@, dragonducks@, k));
                                    let a = choose|a: int|
                                        0 <= a < dragonducks@.len() && (#[trigger] dragonducks@[a])@
                                            == family@[k]@;
                                    let b = choose|b: int|
                                        0 <= b < k && linked((#[trigger] family@[b])@, family@[k]@);
                                    assert(dragonducks@[a]@ == chain[k]@);
                                    assert(linked(chain[b]@, chain[k]@));
                                }
                                assert(is_lineage(chain, self@, dragonducks@));
                                assert(family@[0].dna.id == self.dna.id);
                                assert(names_parent(chain.last()@, id));
                                assert(names_stranger(chain.last()@, self.dna.id, dragonducks@));
                            }
                            return Err("Couldn't find parent by id".to_string());
                        },
                    }
                }
                p += 1;
            }
            assert(parents_joined(family@, next as int)) by {
                assert forall|id: u32| #[trigger] names_parent(family@[next as int]@, id) implies has_id(
                    family@,
                    id,
                ) by {
                    let q = choose|q: int| 0 <= q < pending.len() && #[trigger] pending[q] == id;
                    assert(has_id(family@, pending[q]));
                }
            }
            let mut i: usize = 0;
            while i < dragonducks.len()
                invariant
                    i <= dragonducks.len(),
                    next < family.len(),
                    family@[next as int].dna.id == current_id,
                    is_lineage(family@, self@, dragonducks@),
                    distinct_ids(family@),
                    forall|m: int|
                        0 <= m < next ==> #[trigger] relatives_joined(family@, dragonducks@, m),
                    parents_joined(family@, next as int),
                    children_joined(family@, dragonducks@, next as int, i as int),
                    unseen(dragonducks@, family@) + family.len() <= start,
                decreases dragonducks.len() - i,
            {
                if dragonducks[i].has_parent(current_id) && !contains_id(
                    &family,
                    dragonducks[i].dna.id,
                ) {
                    let child = dragonducks[i].clone();
                    proof {
                        lemma_join(family@, child, self@, dragonducks@, i as int, next as int);
                        lemma_has_id_push(family@, child, child.dna.id);
                        assert forall|m: int| 0 <= m < next implies #[trigger] relatives_joined(
                            family@.push(child),
                            dragonducks@,
                            m,
                        ) by {
                            assert(relatives_joined(family@, dragonducks@, m));
                        }
                    }
                    family.push(child);
                }
                i += 1;
            }
            assert(relatives_joined(family@, dragonducks@, next as int));
            next += 1;
        }
        Ok(family)
    }
}

/// Whether `duck` is the dragonduck that the DNA at `k` of `input` makes:
/// it has that DNA, and for parents the first two of `input` that can be
/// its parents.
pub open spec fn is_grown(duck: Dragonduck, input: Seq<DeoxyribonucleicAcid>, k: int) -> bool {
    &&& duck.dna@ == input[k]@
    &&& match duck.parents {
        Some(pair) => exists|i: int, j: int|
            {
                &&& #[trigger] is_first_parent_pair(&input[k], input, i, j)
                &&& pair[0]@ == input[i]@
                &&& pair[1]@ == input[j]@
            },
        None => !has_parents(&input[k], input),
    }
}

/// Whether `dragonducks` are the dragonducks that the DNA of `input`
/// make, in their order.
pub open spec fn is_population(
    dragonducks: Seq<Dragonduck>,
    input: Seq<DeoxyribonucleicAcid>,
) -> bool {
    &&& dragonducks.len() == input.len()
    &&& forall|k: int| 0 <= k < input.len() ==> is_grown(#[trigger] dragonducks[k], input, k)
}

/// Whether `families` holds, for each of `dragonducks` without parents,
/// its family, and nothing for the others.
pub open spec fn is_census(
    families: Seq<Option<Seq<Dragonduck>>>,
    dragonducks: Seq<Dragonduck>,
) -> bool {
    &&& families.len() == dragonducks.len()
    &&& forall|k: int|
        0 <= k < families.len() ==> match #[trigger] families[k] {
            Some(family) => dragonducks[k].parents is None && is_family(
                family,
                dragonducks[k]@,
                dragonducks,
            ),
            None => dragonducks[k].parents is Some,
        }
}

/// Whether the family at `best` is the last of the largest families.
pub open spec fn is_last_largest(families: Seq<Option<Seq<Dragonduck>>>, best: int) -> bool {
    &&& 0 <= best < families.len()
    &&& families[best] is Some
    &&& forall|k: int|
        0 <= k < families.len() && (#[trigger] families[k]) is Some ==> {
            &&& families[k]->Some_0.len() <= families[best]->Some_0.len()
            &&& k > best ==> families[k]->Some_0.len() < families[best]->Some_0.len()
        }
}

/// The sum of the numbers of the members of `family`.
pub open spec fn id_sum(family: Seq<Dragonduck>) -> nat
    decreases family.len(),
{
    if family.len() == 0 {
        0
    } else {
        id_sum(family.drop_last()) + family.last().dna.id as nat
    }
}

/// The sum of the numbers is no more than the largest number times the
/// number of members.
pub proof fn lemma_id_sum_bounded(family: Seq<Dragonduck>)
    ensures
        id_sum(family) <= family.len() * 0xffff_ffff,
    decreases family.len(),
{
    if family.len() > 0 {
        lemma_id_sum_bounded(family.drop_last());
        assert(id_sum(family) <= (family.len() - 1) * 0xffff_ffff + 0xffff_ffff);
        assert((family.len() - 1) * 0xffff_ffff + 0xffff_ffff == family.len() * 0xffff_ffff)
            by (nonlinear_arith);
    }
}

/// The dragonducks that the DNA of `input` make.
pub fn grow_population(input: &[DeoxyribonucleicAcid]) -> (dragonducks: Vec<Dragonduck>)
    requires
        all_equally_long(input@),
    ensures
        is_population(dragonducks@, input@),
{
    let mut dragonducks: Vec<Dragonduck> = Vec::new();
    let mut k: usize = 0;
    while k < input.len()
        invariant
            k <= input.len(),
            all_equally_long(input@),
            dragonducks.len() == k,
            forall|l: int| 0 <= l < k ==> is_grown(#[trigger] dragonducks@[l], input@, l),
        decreases input.len() - k,
    {
        assert(all_at_least(input@, input@[k as int].sequence@.len() as int));
        let duck = Dragonduck { dna: input[k].clone(), parents: input[k].find_parents(input) };
        assert(is_grown(duck, input@, k as int));
        dragonducks.push(duck);
        k += 1;
    }
    dragonducks
}

/// The sum of the numbers of the largest family among the dragonducks
/// that the DNA of `input` make; of the last of the largest where several
/// are as large. A family is counted from each dragonduck without
/// parents. Fails where every dragonduck has parents.
pub fn part3(input: &[DeoxyribonucleicAcid]) -> (result: Result<usize, String>)
    requires
        all_equally_long(input@),
        (input@.len() + 1) * 0xffff_ffff <= usize::MAX,
    ensures
        match result {
            Ok(sum) => exists|
                dragonducks: Seq<Dragonduck>,
                families: Seq<Option<Seq<Dragonduck>>>,
                best: int,
            |
                #![trigger is_census(families, dragonducks), is_last_largest(families, best)]
                {
                    &&& is_population(dragonducks, input@)
                    &&& is_census(families, dragonducks)
                    &&& is_last_largest(families, best)
                    &&& sum == id_sum(families[best]->Some_0)
                },
            Err(message) => message@ == "No dragoduck families"@ && forall|k: int|
                0 <= k < input@.len() ==> has_parents(&#[trigger] input@[k], input@),
        },
{
    let dragonducks = grow_population(input);
    let ghost mut families: Seq<Option<Seq<Dragonduck>>> = Seq::empty();
    let ghost mut best_at: int = 0;
    let mut best: Option<Vec<Dragonduck>> = None;
    let mut k: usize = 0;
    while k < dragonducks.len()
        invariant
            k <= dragonducks.len(),
            is_population(dragonducks@, input@),
            families.len() == k,
            forall|l: int|
                0 <= l < k ==> match #[trigger] families[l] {
                    Some(family) => dragonducks@[l].parents is None && is_family(
                        family,
                        dragonducks@[l]@,
                        dragonducks@,
                    ) && family.len() <= dragonducks@.len() + 1,
                    None => dragonducks@[l].parents is Some,
                },
            match best {
                Some(family) => is_last_largest(families, best_at) && families[best_at]
                    == Some(family@),
                None => forall|l: int| 0 <= l < k ==> (#[trigger] families[l]) is None,
            },
        decreases dragonducks.len() - k,
    {
        let ghost before = families;
        let mut joined: Option<Vec<Dragonduck>> = None;
        if dragonducks[k].parents.is_none() {
            match dragonducks[k].build_family(dragonducks.as_slice()) {
                Ok(family) => {
                    joined = Some(family);
                },
                Err(_) => {
                    proof {
                        let chain = choose|chain: Seq<Dragonduck>| #[trigger]
                            is_lineage(chain, dragonducks@[k as int]@, dragonducks@)
                                && names_stranger(
                                chain.last()@,
                                dragonducks@[k as int].dna.id,
                                dragonducks@,
                            );
                        let last = chain.len() - 1;
                        let id = choose|id: u32| #[trigger]
                            names_parent(chain.last()@, id) && id != dragonducks@[k as int].dna.id
                                && forall|i: int|
                                0 <= i < dragonducks@.len() ==> (#[trigger] dragonducks@[i]).dna.id
                                    != id;
                        if last > 0 {
                            assert(comes_from(chain, dragonducks@, last));
                            let a = choose|a: int|
                                0 <= a < dragonducks@.len() && (#[trigger] dragonducks@[a])@
                                    == chain[last]@;
                            assert(is_grown(dragonducks@[a], input@, a));
                            let pair = dragonducks@[a].parents->Some_0;
                            let (i, j) = choose|i: int, j: int|
                                {
                                    &&& #[trigger] is_first_parent_pair(&input@[a], input@, i, j)
                                    &&& pair[0]@ == input@[i]@
                                    &&& pair[1]@ == input@[j]@
                                };
                            assert(is_grown(dragonducks@[i], input@, i));
                            assert(is_grown(dragonducks@[j], input@, j));
                            assert(dragonducks@[i].dna.id == pair[0].id);
                            assert(dragonducks@[j].dna.id == pair[1].id);
                            assert(false);
                        } else {
                            assert(false);
                        }
                    }
                },
            }
        }
        match joined {
            Some(family) => {
                proof {
                    families = before.push(Some(family@));
                }
                let larger = match &best {
                    Some(kept) => family.len() >= kept.len(),
                    None => true,
                };
                if larger {
                    proof {
                        best_at = k as int;
                    }
                    best = Some(family);
                }
            },
            None => {
                proof {
                    families = before.push(None);
                }
            },
        }
        k += 1;
    }
    match best {
        Some(family) => {
            proof {
                lemma_id_sum_bounded(family@);
                assert(family@.len() * 0xffff_ffff <= (input@.len() + 1) * 0xffff_ffff)
                    by (nonlinear_arith)
                    requires
                        family@.len() <= input@.len() + 1,
                ;
            }
            let mut sum: usize = 0;
            let mut m: usize = 0;
            assert(family@.take(0) =~= Seq::<Dragonduck>::empty());
            while m < family.len()
                invariant
                    m <= family.len(),
                    id_sum(family@) <= usize::MAX,
                    sum == id_sum(family@.take(m as int)),
                decreases family.len() - m,
            {
                proof {
                    assert(family@.take(m + 1).drop_last() =~= family@.take(m as int));
                    lemma_id_sum_grows(family@, m + 1);
                }
                sum = sum + family[m].dna.id as usize;
                m += 1;
            }
            assert(family@.take(m as int) =~= family@);
            assert(is_census(families, dragonducks@));
            Ok(sum)
        },
        None => {
            assert forall|k: int| 0 <= k < input@.len() implies has_parents(
                &#[trigger] input@[k],
                input@,
            ) by {
                assert(families[k] is None);
                assert(is_grown(dragonducks@[k], input@, k));
            }
            Err("No dragoduck families".to_string())
        },
    }
}

/// The sum of a part of a family is no more than the sum of the family.
pub proof fn lemma_id_sum_grows(family: Seq<Dragonduck>, count: int)
    requires
        0 <= count <= family.len(),
    ensures
        id_sum(family.take(count)) <= id_sum(family),
    decreases family.len(),
{
    if count < family.len() {
        lemma_id_sum_grows(family.drop_last(), count);
        assert(family.drop_last().take(count) =~= family.take(count));
    } else {
        assert(family.take(count) =~= family);
    }
}

/// The colon that stands between the number and the letters of a DNA.
pub const COLON: u8 = 58;

/// What a line of a list of DNA holds: the number before its first colon
/// and the letters behind it.
pub open spec fn dna_of(line: Seq<u8>) -> Result<Dna, ParseError> {
    let at = find_byte(line, 0, COLON);
    if at >= line.len() {
        Err(ParseError::MissingSeparator)
    } else {
        match parsed_unsigned(line.subrange(0, at), u32::MAX as nat) {
            Some(id) => Ok(Dna { id: id as u32, sequence: line.subrange(at + 1, line.len() as int) }),
            None => Err(ParseError::InvalidNumber),
        }
    }
}

/// Reads the DNA of one line.
pub fn parse_dna(line: &[u8]) -> (result: Result<DeoxyribonucleicAcid, ParseError>)
    ensures
        match result {
            Ok(dna) => dna_of(line@) == Ok::<Dna, ParseError>(dna@),
            Err(e) => dna_of(line@) == Err::<Dna, ParseError>(e),
        },
{
    match split_once(line, COLON) {
        Some((head, tail)) => match parse_u32(head) {
            Some(id) => Ok(DeoxyribonucleicAcid { id, sequence: to_vec(tail) }),
            None => Err(ParseError::InvalidNumber),
        },
        None => Err(ParseError::MissingSeparator),
    }
}

/// The lines of a list of DNA: the text is trimmed first.
pub open spec fn dna_lines(text: Seq<u8>) -> Seq<Seq<u8>> {
    lines_of(trimmed(text))
}

/// Reads a list of DNA: on each line a number, a colon and the letters.
/// White space round the text is ignored. Fails with the error of the
/// first line that holds no DNA: `MissingSeparator` for a line without a
/// colon, `InvalidNumber` for a line that starts with no number of 32
/// bits.
pub fn parse_input(text: &str) -> (result: Result<Vec<DeoxyribonucleicAcid>, ParseError>)
    ensures
        match result {
            Ok(dragonducks) => {
                &&& dragonducks@.len() == dna_lines(text.spec_bytes()).len()
                &&& forall|i: int|
                    0 <= i < dragonducks@.len() ==> dna_of(
                        #[trigger] dna_lines(text.spec_bytes())[i],
                    ) == Ok::<Dna, ParseError>(dragonducks@[i]@)
            },
            Err(e) => exists|i: int|
                {
                    &&& 0 <= i < dna_lines(text.spec_bytes()).len()
                    &&& dna_of(#[trigger] dna_lines(text.spec_bytes())[i]) == Err::<
                        Dna,
                        ParseError,
                    >(e)
                    &&& forall|j: int|
                        0 <= j < i ==> dna_of(#[trigger] dna_lines(text.spec_bytes())[j]) is Ok
                },
        },
{
    let rows = lines(trim(text.as_bytes()));
    let ghost all = dna_lines(text.spec_bytes());
    assert(all == contents(rows@));
    let mut dragonducks: Vec<DeoxyribonucleicAcid> = Vec::new();
    let mut i: usize = 0;
    while i < rows.len()
        invariant
            i <= rows.len(),
            all == contents(rows@),
            all == dna_lines(text.spec_bytes()),
            dragonducks.len() == i,
            forall|k: int|
                0 <= k < i ==> dna_of(#[trigger] all[k]) == Ok::<Dna, ParseError>(dragonducks@[k]@),
        decreases rows.len() - i,
    {
        assert(all[i as int] == rows@[i as int]@);
        match parse_dna(rows[i]) {
            Ok(dna) => {
                dragonducks.push(dna);
            },
            Err(e) => {
                assert(dna_of(all[i as int]) == Err::<Dna, ParseError>(e));
                return Err(e);
            },
        }
        i += 1;
    }
    Ok(dragonducks)
}

} // verus!
