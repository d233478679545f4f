use vstd::prelude::*;

use crate::bytes::{compare_bytes, lex_lt, lemma_lex_irreflexive, lemma_lex_transitive};

verus! {

/// Each element is strictly below every later one: sorted and duplicate-free.
pub open spec fn strictly_sorted(d: Seq<Seq<u8>>) -> bool {
    forall|i: int, j: int| 0 <= i < j < d.len() ==> lex_lt(#[trigger] d[i], #[trigger] d[j])
}

/// The contents of a vector of byte strings.
pub open spec fn byte_strings(v: Seq<Vec<u8>>) -> Seq<Seq<u8>> {
    Seq::new(v.len(), |i: int| v[i]@)
}

/// A sorted collection of byte strings without duplicates.
pub struct SortedCollection {
    items: Vec<Vec<u8>>,
}

impl View for SortedCollection {
    type V = Seq<Seq<u8>>;

    closed spec fn view(&self) -> Seq<Seq<u8>> {
        byte_strings(self.items@)
    }
}

impl SortedCollection {
    #[verifier::type_invariant]
    spec fn sorted(&self) -> bool {
        strictly_sorted(byte_strings(self.items@))
    }

    /// Sorts and deduplicates `v`.
    pub fn new(v: Vec<Vec<u8>>) -> (r: Self)
        ensures
            strictly_sorted(r@),
            r@.len() <= v.len(),
            forall|x: Seq<u8>| r@.contains(x) <==> byte_strings(v@).contains(x),
            (r@.len() == v.len()) == byte_strings(v@).no_duplicates(),
    {
        let mut v = v;
        let ghost orig = byte_strings(v@);
        let mut items: Vec<Vec<u8>> = Vec::new();
        while v.len() > 0
            invariant
                v.len() <= orig.len(),
                byte_strings(v@) == orig.take(v.len() as int),
                strictly_sorted(byte_strings(items@)),
                items.len() + v.len() <= orig.len(),
                forall|x: Seq<u8>|
                    byte_strings(items@).contains(x) <==> orig.skip(v.len() as int).contains(x),
            decreases v.len(),
        {
            let ghost k = v.len() - 1;
            let ghost oldv = v@;
            let x = v.pop().unwrap();
            let ghost xv = x@;
            let ghost old_sk = orig.skip(k + 1);
            let ghost new_sk = orig.skip(k as int);
            proof {
                assert(x == oldv[k as int]);
                assert(byte_strings(oldv)[k as int] == oldv[k as int]@);
                assert(orig.take(k + 1)[k as int] == orig[k as int]);
                assert(xv == orig[k as int]);
                assert(byte_strings(v@) =~= orig.take(v.len() as int));
                assert(new_sk =~= seq![xv] + old_sk);
                assert forall|y: Seq<u8>| new_sk.contains(y) <==> (y == xv || old_sk.contains(y)) by {
                    if new_sk.contains(y) && y != xv {
                        let j = choose|j: int| 0 <= j < new_sk.len() && new_sk[j] == y;
                        assert(old_sk[j - 1] == y);
                    }
                    if old_sk.contains(y) {
                        let j = choose|j: int| 0 <= j < old_sk.len() && old_sk[j] == y;
                        assert(new_sk[j + 1] == y);
                    }
                    if y == xv {
                        assert(new_sk[0] == y);
                    }
                }
            }
            let ghost before = byte_strings(items@);
            match Self::find_helper(&x, &items) {
                Ok(i) => {
                    proof {
                        assert(before[i as int] == xv);
                    }
                },
                Err(pos) => {
                    items.insert(pos, x);
                    proof {
                        let after = byte_strings(items@);
                        assert(after =~= before.insert(pos as int, xv));
                        assert forall|i: int, j: int| 0 <= i < j < after.len() implies lex_lt(
                            #[trigger] after[i],
                            #[trigger] after[j],
                        ) by {
                            if j < pos {
                            } else if i < pos && j == pos {
                            } else if i < pos {
                                assert(after[j] == before[j - 1]);
                            } else if i == pos {
                                assert(after[j] == before[j - 1]);
                            } else {
                                assert(after[i] == before[i - 1]);
                                assert(after[j] == before[j - 1]);
                            }
                        }
                        assert forall|y: Seq<u8>| after.contains(y) <==> (y == xv || before.contains(y)) by {
                            if after.contains(y) && y != xv {
                                let j = choose|j: int| 0 <= j < after.len() && after[j] == y;
                                if j < pos {
                                    assert(before[j] == y);
                                } else {
                                    assert(before[j - 1] == y);
                                }
                            }
                            if before.contains(y) {
                                let j = choose|j: int| 0 <= j < before.len() && before[j] == y;
                                if j < pos {
                                    assert(after[j] == y);
                                } else {
                                    assert(after[j + 1] == y);
                                }
                            }
                            if y == xv {
                                assert(after[pos as int] == y);
                            }
                        }
                    }
                },
            }
        }
        assert(orig.skip(0) =~= orig);
        proof {
            let r = byte_strings(items@);
            assert(r.no_duplicates()) by {
                assert forall|i: int, j: int| 0 <= i < r.len() && 0 <= j < r.len() && i != j implies r[i]
                    != r[j] by {
                    lemma_lex_irreflexive(r[i]);
                }
            }
            r.unique_seq_to_set();
            assert(r.to_set() =~= orig.to_set());
            orig.lemma_cardinality_of_set();
            if orig.no_duplicates() {
                orig.unique_seq_to_set();
            }
            if r.len() == orig.len() {
                orig.lemma_no_dup_set_cardinality();
            }
        }
        SortedCollection { items }
    }

    pub fn len(&self) -> (r: usize)
        ensures
            r == self@.len(),
            strictly_sorted(self@),
    {
        proof {
            use_type_invariant(self);
        }
        self.items.len()
    }

    /// The position of `value` in the collection, or `None` if it is not in it.
    pub fn find(&self, value: &[u8]) -> (r: Option<usize>)
        ensures
            strictly_sorted(self@),
            match r {
                Some(i) => i < self@.len() && self@[i as int] == value@,
                None => !self@.contains(value@),
            },
    {
        proof {
            use_type_invariant(self);
        }
        match Self::find_helper(value, &self.items) {
            Ok(i) => Some(i),
            Err(i) => {
                proof {
                    let d = self@;
                    if d.contains(value@) {
                        let j = choose|j: int| 0 <= j < d.len() && d[j] == value@;
                        lemma_lex_irreflexive(value@);
                    }
                }
                None
            },
        }
    }

    /// Binary search: `Ok` with the position of `value`, or `Err` with the
    /// position at which it would have to be inserted.
    fn find_helper(value: &[u8], arr: &Vec<Vec<u8>>) -> (r: Result<usize, usize>)
        requires
            strictly_sorted(byte_strings(arr@)),
        ensures
            match r {
                Ok(i) => i < arr.len() && arr@[i as int]@ == value@,
                Err(i) => i <= arr.len() && (forall|j: int|
                    0 <= j < i ==> lex_lt(#[trigger] arr@[j]@, value@)) && (forall|j: int|
                    i <= j < arr.len() ==> lex_lt(value@, #[trigger] arr@[j]@)),
            },
    {
        let ghost d = byte_strings(arr@);
        let mut lo: usize = 0;
        let mut hi: usize = arr.len();
        while lo < hi
            invariant
                lo <= hi <= arr.len(),
                d == byte_strings(arr@),
                strictly_sorted(d),
                forall|j: int| 0 <= j < lo ==> lex_lt(#[trigger] arr@[j]@, value@),
                forall|j: int| hi <= j < arr.len() ==> lex_lt(value@, #[trigger] arr@[j]@),
            decreases hi - lo,
        {
            let mid = lo + (hi - lo) / 2;
            match compare_bytes(value, arr[mid].as_slice()) {
                core::cmp::Ordering::Less => {
                    proof {
                        assert forall|j: int| mid <= j < arr.len() implies lex_lt(
                            value@,
                            #[trigger] arr@[j]@,
                        ) by {
                            if j > mid {
                                assert(d[mid as int] == arr@[mid as int]@);
                                assert(d[j] == arr@[j]@);
                                lemma_lex_transitive(value@, arr@[mid as int]@, arr@[j]@);
                            }
                        }
                    }
                    hi = mid;
                },
                core::cmp::Ordering::Equal => {
                    return Ok(mid);
                },
                core::cmp::Ordering::Greater => {
                    proof {
                        assert forall|j: int| 0 <= j <= mid implies lex_lt(
                            #[trigger] arr@[j]@,
                            value@,
                        ) by {
                            if j < mid {
                                assert(d[mid as int] == arr@[mid as int]@);
                                assert(d[j] == arr@[j]@);
                                lemma_lex_transitive(arr@[j]@, arr@[mid as int]@, value@);
                            }
                        }
                    }
                    lo = mid + 1;
                },
            }
        }
        Err(lo)
    }

    pub fn into_vec(self) -> (r: Vec<Vec<u8>>)
        ensures
            byte_strings(r@) == self@,
    {
        self.items
    }

    pub fn values(&self) -> (r: &Vec<Vec<u8>>)
        ensures
            byte_strings(r@) == self@,
    {
        &self.items
    }

    /// The element at position `index`.
    pub fn index(&self, index: usize) -> (r: &[u8])
        requires
            index < self@.len(),
        ensures
            r@ == self@[index as int],
    {
        self.items[index].as_slice()
    }
}

} // verus!
