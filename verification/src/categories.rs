//! A set of unique category names, in a specific order.
use vstd::prelude::*;
use crate::encoding::{lex_lt, sorted_strict, lemma_lex_connex, lemma_lex_irrefl, str_lex_lt};
use crate::error::{message_error, ErrorMessage};

verus! {

use vstd::string::StringExecFns;

/// No name occurs twice.
pub open spec fn unique_views(cs: Seq<Seq<char>>) -> bool {
    forall|i: int, j: int| 0 <= i < j < cs.len() ==> cs[i] != cs[j]
}

/// The names of `add` that are missing from `base`, in order.
pub open spec fn keep_missing(base: Seq<Seq<char>>, add: Seq<Seq<char>>) -> Seq<Seq<char>>
    decreases add.len(),
{
    if add.len() == 0 {
        Seq::<Seq<char>>::empty()
    } else {
        let rest = keep_missing(base, add.drop_first());
        if base.contains(add[0]) {
            rest
        } else {
            seq![add[0]] + rest
        }
    }
}

proof fn lemma_keep_missing_push(base: Seq<Seq<char>>, add: Seq<Seq<char>>, x: Seq<char>)
    ensures
        keep_missing(base, add.push(x)) == keep_missing(base, add) + (if base.contains(x) {
            Seq::<Seq<char>>::empty()
        } else {
            seq![x]
        }),
    decreases add.len(),
{
    if add.len() == 0 {
        assert(add.push(x)[0] == x);
        assert(add.push(x).drop_first() =~= Seq::<Seq<char>>::empty());
        assert(keep_missing(base, Seq::<Seq<char>>::empty()) =~= Seq::<Seq<char>>::empty());
        assert(keep_missing(base, add.push(x)) =~~= keep_missing(base, add) + (if base.contains(x) {
            Seq::<Seq<char>>::empty()
        } else {
            seq![x]
        }));
    } else {
        assert(add.push(x).drop_first() =~= add.drop_first().push(x));
        lemma_keep_missing_push(base, add.drop_first(), x);
        assert(keep_missing(base, add.push(x)) =~~= keep_missing(base, add) + (if base.contains(x) {
            Seq::<Seq<char>>::empty()
        } else {
            seq![x]
        }));
    }
}

proof fn lemma_insert_contains(s: Seq<Seq<char>>, j: int, x: Seq<char>, y: Seq<char>)
    requires
        0 <= j <= s.len(),
    ensures
        s.insert(j, x).contains(y) <==> (s.contains(y) || y == x),
{
    let t = s.insert(j, x);
    if t.contains(y) {
        let k = choose|k: int| 0 <= k < t.len() && t[k] == y;
        if k < j {
            assert(s[k] == y);
        } else if k == j {
        } else {
            assert(s[k - 1] == y);
        }
    }
    if s.contains(y) {
        let k = choose|k: int| 0 <= k < s.len() && s[k] == y;
        if k < j {
            assert(t[k] == y);
        } else {
            assert(t[k + 1] == y);
        }
    }
    if y == x {
        assert(t[j] == y);
    }
}

/// A strictly sorted set holds no name twice: a store's category set is
/// fit to seed a duration counter.
pub proof fn lemma_sorted_strict_unique(cs: Seq<Seq<char>>)
    requires
        sorted_strict(cs),
    ensures
        unique_views(cs),
{
    assert forall|i: int, j: int| 0 <= i < j < cs.len() implies cs[i] != cs[j] by {
        lemma_lex_irrefl(cs[i]);
    }
}

/// Store a set of unique category names, in a specific order.
#[derive(Debug, Clone)]
pub struct UniqueCategories(pub Vec<String>);

impl UniqueCategories {
    pub open spec fn dv(self) -> Seq<Seq<char>> {
        self.0.deep_view()
    }

    pub fn len(&self) -> (r: usize)
        ensures
            r == self.dv().len(),
    {
        self.0.len()
    }

    pub fn name_at(&self, i: usize) -> (r: &String)
        requires
            i < self.dv().len(),
        ensures
            r@ == self.dv()[i as int],
    {
        &self.0[i]
    }

    /// Check if the given names are unique; keeps their order. On a
    /// duplicate, the error's message names the duplicated category.
    pub fn from_unique(categories: Vec<String>) -> (r: Result<Self, ErrorMessage>)
        ensures
            r is Ok <==> unique_views(categories.deep_view()),
            r matches Ok(u) ==> u.0 == categories,
            r matches Err(e) ==> ({
                &&& e.spec_messages().len() == 1
                &&& exists|p: int, q: int|
                    #![trigger categories.deep_view()[p], categories.deep_view()[q]]
                    0 <= p < q < categories.deep_view().len() && categories.deep_view()[p]
                        == categories.deep_view()[q] && e.spec_message() == "Duplicate category '"@
                        + categories.deep_view()[p] + "'"@
            }),
    {
        let ghost dv = categories.deep_view();
        let n = categories.len();
        let mut i: usize = 0;
        while i < n
            invariant
                i <= n,
                n == dv.len(),
                dv == categories.deep_view(),
                forall|p: int, q: int| 0 <= p < q < n && p < i ==> dv[p] != dv[q],
            decreases n - i,
        {
            let mut j: usize = i + 1;
            while j < n
                invariant
                    i < j <= n,
                    n == dv.len(),
                    dv == categories.deep_view(),
                    forall|q: int| i < q < j ==> dv[i as int] != dv[q],
                decreases n - j,
            {
                if categories[i] == categories[j] {
                    let mut msg = String::from_str("Duplicate category '");
                    msg.append(categories[i].as_str());
                    msg.append("'");
                    let e = message_error(msg);
                    proof {
                        assert(dv[i as int] == categories@[i as int]@);
                        assert(dv[j as int] == categories@[j as int]@);
                        assert(dv[i as int] == dv[j as int]);
                        assert(e.spec_message() == "Duplicate category '"@ + dv[i as int] + "'"@);
                        assert(0 <= i < j < dv.len() && dv[i as int] == dv[j as int]
                            && e.spec_message() == "Duplicate category '"@ + dv[i as int]
                            + "'"@);
                    }
                    return Err(e);
                }
                assert(dv[i as int] == categories@[i as int]@);
                assert(dv[j as int] == categories@[j as int]@);
                j += 1;
            }
            i += 1;
        }
        Ok(UniqueCategories(categories))
    }

    /// Make the given names unique and sorted. Input order is not conserved.
    pub fn make_unique(categories: Vec<String>) -> (r: Self)
        ensures
            sorted_strict(r.dv()),
            forall|x: Seq<char>|
                #![trigger r.dv().contains(x)]
                r.dv().contains(x) <==> categories.deep_view().contains(x),
    {
        let ghost dv = categories.deep_view();
        let mut out: Vec<String> = Vec::new();
        let mut i: usize = 0;
        assert(dv.take(0) =~= Seq::<Seq<char>>::empty());
        while i < categories.len()
            invariant
                i <= categories.len(),
                dv == categories.deep_view(),
                dv.len() == categories@.len(),
                sorted_strict(out.deep_view()),
                forall|x: Seq<char>|
                    #![trigger dv.take(i as int).contains(x)]
                    out.deep_view().contains(x) <==> dv.take(i as int).contains(x),
            decreases categories.len() - i,
        {
            let name = &categories[i];
            assert(name@ == dv[i as int]);
            let ghost odv = out.deep_view();
            let mut j: usize = 0;
            while j < out.len() && str_lex_lt(out[j].as_str(), name.as_str())
                invariant
                    j <= out.len(),
                    odv == out.deep_view(),
                    odv.len() == out@.len(),
                    sorted_strict(odv),
                    forall|k: int| 0 <= k < j ==> lex_lt(odv[k], name@),
                decreases out.len() - j,
            {
                assert(out@[j as int]@ == odv[j as int]);
                j += 1;
            }
            let already = j < out.len() && out[j] == *name;
            if already {
                assert(odv[j as int] == name@);
                assert(odv.contains(name@));
                proof {
                    assert(dv.take(i as int + 1) =~= dv.take(i as int).push(dv[i as int]));
                    assert forall|x: Seq<char>|
                        #![trigger dv.take(i as int + 1).contains(x)]
                        out.deep_view().contains(x) <==> dv.take(i as int + 1).contains(x) by {
                        if dv.take(i as int + 1).contains(x) {
                            let k = choose|k: int|
                                0 <= k < dv.take(i as int + 1).len() && (#[trigger] dv.take(
                                    i as int + 1,
                                )[k]) == x;
                            if k < i {
                                assert(dv.take(i as int)[k] == x);
                                assert(dv.take(i as int).contains(x));
                            } else {
                                assert(x == name@);
                            }
                        }
                        if out.deep_view().contains(x) {
                            assert(dv.take(i as int).contains(x));
                            let k = choose|k: int|
                                0 <= k < dv.take(i as int).len() && (#[trigger] dv.take(i as int)[k]) == x;
                            assert(dv.take(i as int + 1)[k] == x);
                        }
                    }
                }
            } else {
                proof {
                    if j < odv.len() {
                        assert(odv[j as int] != name@);
                        lemma_lex_connex(odv[j as int], name@);
                        assert(lex_lt(name@, odv[j as int]));
                    }
                }
                out.insert(j, name.clone());
                proof {
                    let ndv = out.deep_view();
                    assert(ndv =~~= odv.insert(j as int, name@));
                    assert forall|p: int, q: int| 0 <= p < q < ndv.len() implies lex_lt(
                        #[trigger] ndv[p],
                        #[trigger] ndv[q],
                    ) by {
                        if q < j {
                            assert(ndv[p] == odv[p] && ndv[q] == odv[q]);
                        } else if p < j && q == j {
                            assert(ndv[p] == odv[p] && ndv[q] == name@);
                        } else if p < j && q > j {
                            assert(ndv[p] == odv[p] && ndv[q] == odv[q - 1]);
                        } else if p == j {
                            assert(ndv[p] == name@ && ndv[q] == odv[q - 1]);
                            if q - 1 > j {
                                crate::encoding::lemma_lex_trans(name@, odv[j as int], odv[q - 1]);
                            }
                        } else {
                            assert(ndv[p] == odv[p - 1] && ndv[q] == odv[q - 1]);
                        }
                    }
                    assert(dv.take(i as int + 1) =~= dv.take(i as int).push(dv[i as int]));
                    assert forall|x: Seq<char>|
                        #![trigger dv.take(i as int + 1).contains(x)]
                        ndv.contains(x) <==> dv.take(i as int + 1).contains(x) by {
                        lemma_insert_contains(odv, j as int, name@, x);
                        if dv.take(i as int + 1).contains(x) {
                            let k = choose|k: int|
                                0 <= k < dv.take(i as int + 1).len() && (#[trigger] dv.take(
                                    i as int + 1,
                                )[k]) == x;
                            if k < i {
                                assert(dv.take(i as int)[k] == x);
                                assert(dv.take(i as int).contains(x));
                            } else {
                                assert(x == name@);
                            }
                        }
                        if odv.contains(x) {
                            assert(dv.take(i as int).contains(x));
                            let k = choose|k: int|
                                0 <= k < dv.take(i as int).len() && (#[trigger] dv.take(i as int)[k]) == x;
                            assert(dv.take(i as int + 1)[k] == x);
                        }
                        if x == name@ {
                            assert(dv.take(i as int + 1)[i as int] == x);
                        }
                    }
                }
            }
            i += 1;
        }
        assert(dv.take(categories@.len() as int) =~= dv);
        UniqueCategories(out)
    }

    /// Extend with the names not already present. Returns how many were added.
    pub fn extend(&mut self, categories: UniqueCategories) -> (r: usize)
        ensures
            final(self).dv() == old(self).dv() + keep_missing(old(self).dv(), categories.dv()),
            final(self).dv().len() == old(self).dv().len() + r,
    {
        let ghost base = self.dv();
        let ghost add = categories.dv();
        let initial_len = self.0.len();
        let n = categories.0.len();
        let mut k: usize = 0;
        assert(add.take(0) =~= Seq::<Seq<char>>::empty());
        assert(keep_missing(base, add.take(0)) =~= Seq::<Seq<char>>::empty());
        assert(self.dv() =~= base + keep_missing(base, add.take(0)));
        while k < n
            invariant
                k <= n,
                n == add.len(),
                add == categories.dv(),
                initial_len == base.len(),
                self.dv() == base + keep_missing(base, add.take(k as int)),
                self.0@.len() >= initial_len,
                self.dv().len() == self.0@.len(),
            decreases n - k,
        {
            let name = &categories.0[k];
            assert(name@ == add[k as int]);
            let mut present = false;
            let mut p: usize = 0;
            while p < initial_len
                invariant
                    p <= initial_len,
                    initial_len == base.len(),
                    self.dv() == base + keep_missing(base, add.take(k as int)),
                    self.0@.len() >= initial_len,
                    self.dv().len() == self.0@.len(),
                    present <==> exists|q: int| 0 <= q < p && (#[trigger] base[q]) == name@,
                decreases initial_len - p,
            {
                proof {
                    assert(self.dv()[p as int] == base[p as int]);
                    assert(self.dv()[p as int] == self.0@[p as int].deep_view());
                    assert(self.0@[p as int].deep_view() == self.0@[p as int]@);
                }
                if self.0[p] == *name {
                    present = true;
                }
                p += 1;
            }
            assert(present <==> base.contains(name@));
            proof {
                assert(add.take(k as int + 1) =~= add.take(k as int).push(add[k as int]));
                lemma_keep_missing_push(base, add.take(k as int), name@);
            }
            if !present {
                let ghost pdv = self.dv();
                self.0.push(name.clone());
                proof {
                    assert(self.dv() =~= pdv.push(name@));
                    assert(keep_missing(base, add.take(k as int + 1)) =~= keep_missing(
                        base,
                        add.take(k as int),
                    ) + seq![name@]);
                    assert(self.dv() =~= base + keep_missing(base, add.take(k as int + 1)));
                }
            } else {
                assert(self.dv() =~= base + keep_missing(base, add.take(k as int + 1)));
            }
            k += 1;
        }
        assert(add.take(n as int) =~= add);
        self.0.len() - initial_len
    }
}

} // verus!
