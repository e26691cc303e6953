//! Fragment identifiers: the set of identifiers in use and the generation
//! of fresh identifiers for headings.
use vstd::prelude::*;

use crate::text::{digit_char, digits, push_padded, string_of};

verus! {

/// A set of fragment identifiers.
#[derive(Debug)]
pub struct IdSet {
    ids: Vec<String>,
}

impl View for IdSet {
    type V = Set<Seq<char>>;

    closed spec fn view(&self) -> Set<Seq<char>> {
        self.ids@.map_values(|s: String| s@).to_set()
    }
}

impl IdSet {
    /// How many strings the set has stored (an upper bound of its size).
    pub closed spec fn stored(&self) -> nat {
        self.ids@.len()
    }

    pub proof fn lemma_size(&self)
        ensures
            self@.finite(),
            self@.len() <= self.stored(),
    {
        let s = self.ids@.map_values(|x: String| x@);
        s.lemma_cardinality_of_set();
        vstd::seq_lib::seq_to_set_is_finite(s);
    }

    /// Creates an empty set.
    pub fn new() -> (r: Self)
        ensures
            r@ == Set::<Seq<char>>::empty(),
            r.stored() == 0,
    {
        let r = IdSet { ids: Vec::new() };
        assert(r@ =~= Set::<Seq<char>>::empty());
        r
    }

    /// Whether the set holds `id`.
    pub fn contains(&self, id: &str) -> (r: bool)
        ensures
            r == self@.contains(id@),
    {
        let mut i: usize = 0;
        while i < self.ids.len()
            invariant
                i <= self.ids.len(),
                forall|k: int| 0 <= k < i ==> self.ids@[k]@ != id@,
            decreases self.ids.len() - i,
        {
            if crate::text::same_text(self.ids[i].as_str(), id) {
                assert(self.ids@.map_values(|s: String| s@)[i as int] == id@);
                return true;
            }
            i = i + 1;
        }
        proof {
            if self@.contains(id@) {
                let s = self.ids@.map_values(|x: String| x@);
                let k = choose|k: int| 0 <= k < s.len() && s[k] == id@;
                assert(self.ids@[k]@ == id@);
            }
        }
        false
    }

    /// Adds `id`; true exactly when it was not there before.
    pub fn insert(&mut self, id: String) -> (r: bool)
        ensures
            r == !old(self)@.contains(id@),
            final(self)@ == old(self)@.insert(id@),
            final(self).stored() == old(self).stored() + if r { 1nat } else { 0nat },
    {
        if self.contains(id.as_str()) {
            proof {
                assert(self@.insert(id@) =~= self@);
            }
            false
        } else {
            let ghost before = self.ids@;
            self.ids.push(id);
            proof {
                let s0 = before.map_values(|x: String| x@);
                let s1 = self.ids@.map_values(|x: String| x@);
                assert(s1 =~= s0.push(id@));
                s0.lemma_push_to_set_commute(id@);
            }
            true
        }
    }
}

/// The identifier `heading-<k>`.
pub open spec fn heading_id(k: nat) -> Seq<char> {
    seq!['h', 'e', 'a', 'd', 'i', 'n', 'g', '-'] + digits(k, 10)
}

proof fn lemma_digits_shape(n: nat)
    ensures
        digits(n, 10).len() >= 1,
        n < 10 <==> digits(n, 10).len() == 1,
        digits(n, 10).last() == digit_char((n % 10) as int),
        n >= 10 ==> digits(n, 10).drop_last() == digits(n / 10, 10),
    decreases n,
{
    if n >= 10 {
        assert(n / 10 < n);
        lemma_digits_shape(n / 10);
        assert(digits(n, 10).drop_last() =~= digits(n / 10, 10));
    }
}

pub(crate) proof fn lemma_digits_injective(a: nat, b: nat)
    requires
        digits(a, 10) == digits(b, 10),
    ensures
        a == b,
    decreases a,
{
    lemma_digits_shape(a);
    lemma_digits_shape(b);
    assert(digit_char((a % 10) as int) == digit_char((b % 10) as int));
    assert(a % 10 == b % 10);
    if a >= 10 {
        assert(b >= 10);
        lemma_digits_injective(a / 10, b / 10);
    }
}

proof fn lemma_heading_id_injective(a: nat, b: nat)
    requires
        heading_id(a) == heading_id(b),
    ensures
        a == b,
{
    assert(heading_id(a).skip(8) =~= digits(a, 10));
    assert(heading_id(b).skip(8) =~= digits(b, 10));
    lemma_digits_injective(a, b);
}

/// At most as many consecutive heading identifiers as a finite set holds can
/// all be members of it.
pub proof fn lemma_taken_ids_bound(start: nat, end: nat, s: Set<Seq<char>>)
    requires
        s.finite(),
        start <= end,
        forall|j: nat| start <= j < end ==> s.contains(#[trigger] heading_id(j)),
    ensures
        end - start <= s.len(),
{
    let q = Seq::new((end - start) as nat, |j: int| heading_id((start + j) as nat));
    assert forall|i: int, j: int| 0 <= i < q.len() && 0 <= j < q.len() && i != j implies q[i]
        != q[j] by {
        if q[i] == q[j] {
            lemma_heading_id_injective((start + i) as nat, (start + j) as nat);
        }
    }
    assert(q.no_duplicates());
    q.unique_seq_to_set();
    assert forall|x: Seq<char>| q.to_set().contains(x) implies s.contains(x) by {
        let i = choose|i: int| 0 <= i < q.len() && q[i] == x;
        assert(s.contains(heading_id((start + i) as nat)));
    }
    vstd::set_lib::lemma_len_subset(q.to_set(), s);
}

/// The string `heading-<index>`.
fn heading_id_string(index: usize) -> (r: String)
    ensures
        r@ == heading_id(index as nat),
{
    let mut r = string_of(vec!['h', 'e', 'a', 'd', 'i', 'n', 'g', '-'].as_slice());
    push_padded(&mut r, index as u128, 10, 1);
    proof {
        crate::text::lemma_digits_nonempty(index as nat, 10);
    }
    assert(r@ =~= heading_id(index as nat));
    r
}

/// Return a new heading ID that does not collide with existing DOM IDs.
///
/// The ID is `heading-<k>` for the least `k` from `index` on whose ID is not
/// yet in `ids`; it is added to `ids` and `index` moves past `k`.
pub fn next_heading_id(ids: &mut IdSet, index: &mut usize) -> (id: String)
    requires
        *old(index) + old(ids).stored() < usize::MAX,
    ensures
        *old(index) < *final(index),
        id@ == heading_id((*final(index) - 1) as nat),
        !old(ids)@.contains(id@),
        forall|j: nat| *old(index) <= j < *final(index) - 1 ==> old(ids)@.contains(
            #[trigger] heading_id(j),
        ),
        final(ids)@ == old(ids)@.insert(id@),
        final(ids).stored() == old(ids).stored() + 1,
        *final(index) <= *old(index) + old(ids).stored() + 1,
{
    let ghost start = *index;
    let ghost ids0 = ids@;
    let ghost stored0 = ids.stored();
    proof { ids.lemma_size(); }
    loop
        invariant
            start == *old(index),
            ids0 == old(ids)@,
            stored0 == old(ids).stored(),
            ids@ == ids0,
            ids.stored() == stored0,
            ids0.finite(),
            ids0.len() <= stored0,
            start <= *index <= start + stored0,
            start + stored0 < usize::MAX,
            forall|j: nat| start <= j < *index ==> ids0.contains(#[trigger] heading_id(j)),
        decreases stored0 - (*index - start),
    {
        let id = heading_id_string(*index);
        *index = *index + 1;
        let copy = id.clone();
        if ids.insert(copy) {
            return id;
        }
        proof {
            assert forall|j: nat| start <= j < *index implies ids0.contains(#[trigger] heading_id(j)) by {
                if j == *index - 1 {
                    assert(heading_id(j) == id@);
                }
            }
            lemma_taken_ids_bound(start as nat, *index as nat, ids0);
        }
    }
}

} // verus!
