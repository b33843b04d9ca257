//! Collision-free names: a set of names already taken, and the choice of the
//! first free variant of a file name.
use vstd::prelude::*;
use vstd::string::*;
use crate::text::{
    decimal, dir_prefix, find_last, join_path, join_path_str, last_index, lemma_decimal_digits,
    lemma_decimal_injective, lemma_last_index_bounds, push_char, push_decimal,
};

verus! {

/// A set of relative names that are taken.
pub struct NameSet {
    names: Vec<String>,
}

impl View for NameSet {
    type V = Set<Seq<char>>;

    closed spec fn view(&self) -> Set<Seq<char>> {
        self.entries().to_set()
    }
}

impl NameSet {
    closed spec fn entries(&self) -> Seq<Seq<char>> {
        self.names@.map_values(|s: String| s@)
    }

    /// How many entries the set holds, at least as many as its elements.
    pub closed spec fn count(&self) -> nat {
        self.names@.len()
    }

    pub proof fn lemma_count(&self)
        ensures
            self@.finite(),
            self@.len() <= self.count(),
    {
        self.entries().lemma_cardinality_of_set();
        vstd::seq_lib::seq_to_set_is_finite(self.entries());
    }

    pub fn new() -> (r: NameSet)
        ensures
            r@ == Set::<Seq<char>>::empty(),
            r.count() == 0,
    {
        let r = NameSet { names: Vec::new() };
        assert(r@ =~= Set::<Seq<char>>::empty());
        r
    }

    pub fn contains(&self, name: &String) -> (r: bool)
        ensures
            r == self@.contains(name@),
            self.count() <= usize::MAX,
    {
        let mut i: usize = 0;
        while i < self.names.len()
            invariant
                i <= self.names@.len(),
                forall|j: int| 0 <= j < i ==> self.names@[j]@ != name@,
            decreases self.names@.len() - i,
        {
            if self.names[i] == *name {
                assert(self.entries()[i as int] == name@);
                return true;
            }
            i = i + 1;
        }
        assert(!self.entries().contains(name@));
        false
    }

    pub fn insert(&mut self, name: String)
        ensures
            final(self)@ == old(self)@.insert(name@),
    {
        if !self.contains(&name) {
            let ghost before = self.entries();
            self.names.push(name);
            assert(self.entries() =~= before.push(name@));
            proof { before.lemma_push_to_set_commute(name@); }
        }
        assert(final(self)@ =~= old(self)@.insert(name@));
    }
}

/// A file name cut at its last dot: the stem and the extension with its dot.
pub open spec fn split_ext(name: Seq<char>) -> (Seq<char>, Seq<char>) {
    let d = last_index(name, '.');
    if d < 0 {
        (name, Seq::empty())
    } else {
        (name.subrange(0, d), name.subrange(d, name.len() as int))
    }
}

/// The `n`-th name tried for `name` under `base`: the name itself, then
/// `stem_n.ext` for `n` from one on.
pub open spec fn candidate(base: Seq<char>, name: Seq<char>, n: nat) -> Seq<char> {
    if n == 0 {
        join_path(base, name)
    } else {
        join_path(base, split_ext(name).0 + seq!['_'] + decimal(n) + split_ext(name).1)
    }
}

/// `n` is the first attempt whose name is not yet taken.
pub open spec fn is_first_free(base: Seq<char>, name: Seq<char>, used: Set<Seq<char>>, n: nat) -> bool {
    &&& !used.contains(candidate(base, name, n))
    &&& forall|m: nat| m < n ==> used.contains(#[trigger] candidate(base, name, m))
}

/// The name that `unique_relative_path` picks.
pub open spec fn unique_name(base: Seq<char>, name: Seq<char>, used: Set<Seq<char>>) -> Seq<char> {
    candidate(base, name, choose|n: nat| is_first_free(base, name, used, n))
}

/// The set of names after each name of `names`, in order, has been given a
/// free variant under the empty base.
pub open spec fn seeded_names(names: Seq<Seq<char>>) -> Set<Seq<char>>
    decreases names.len(),
{
    if names.len() == 0 {
        Set::empty()
    } else {
        let before = seeded_names(names.drop_last());
        before.insert(unique_name(Seq::empty(), names.last(), before))
    }
}

proof fn lemma_split_ext(name: Seq<char>)
    ensures
        split_ext(name).0 + split_ext(name).1 == name,
{
    lemma_last_index_bounds(name, '.');
    let d = last_index(name, '.');
    if d >= 0 {
        assert(name.subrange(0, d) + name.subrange(d, name.len() as int) =~= name);
    } else {
        assert(name + Seq::<char>::empty() =~= name);
    }
}

/// Distinct attempts give distinct names.
pub proof fn lemma_candidate_injective(base: Seq<char>, name: Seq<char>, a: nat, b: nat)
    requires
        candidate(base, name, a) == candidate(base, name, b),
    ensures
        a == b,
{
    let p = dir_prefix(base);
    let stem = split_ext(name).0;
    let ext = split_ext(name).1;
    lemma_split_ext(name);
    lemma_decimal_digits(a);
    lemma_decimal_digits(b);
    let ca = candidate(base, name, a);
    let cb = candidate(base, name, b);
    if a != 0 && b != 0 {
        let k = p.len() + stem.len() + 1;
        assert(ca.len() == k + decimal(a).len() + ext.len());
        assert(cb.len() == k + decimal(b).len() + ext.len());
        assert(ca.subrange(k as int, (k + decimal(a).len()) as int) =~= decimal(a));
        assert(cb.subrange(k as int, (k + decimal(b).len()) as int) =~= decimal(b));
        lemma_decimal_injective(a, b);
    } else if a == 0 && b != 0 {
        assert(ca.len() == p.len() + name.len());
        assert(cb.len() == p.len() + stem.len() + 1 + decimal(b).len() + ext.len());
    } else if a != 0 && b == 0 {
        assert(cb.len() == p.len() + name.len());
        assert(ca.len() == p.len() + stem.len() + 1 + decimal(a).len() + ext.len());
    }
}

proof fn lemma_first_free_unique(base: Seq<char>, name: Seq<char>, used: Set<Seq<char>>, n: nat)
    requires
        is_first_free(base, name, used, n),
    ensures
        unique_name(base, name, used) == candidate(base, name, n),
{
    let c = choose|k: nat| is_first_free(base, name, used, k);
    assert(is_first_free(base, name, used, c));
    if c < n {
        assert(used.contains(candidate(base, name, c)));
    } else if n < c {
        assert(used.contains(candidate(base, name, n)));
    }
}

/// The first name among `file_name`, `stem_1.ext`, `stem_2.ext`, ... joined
/// under `relative_base_path` that `names` does not hold; it is added to
/// `names`.
pub fn unique_relative_path(relative_base_path: &str, file_name: &str, names: &mut NameSet) -> (r: String)
    ensures
        !old(names)@.contains(r@),
        r@ == unique_name(relative_base_path@, file_name@, old(names)@),
        final(names)@ == old(names)@.insert(r@),
{
    let ghost base = relative_base_path@;
    let ghost name = file_name@;
    let n = file_name.unicode_len();
    proof { lemma_last_index_bounds(name, '.'); }
    let (stem, ext) = match find_last(file_name, '.') {
        Some(d) => (file_name.substring_char(0, d), file_name.substring_char(d, n)),
        None => {
            proof { reveal_strlit(""); }
            assert(""@ =~= Seq::<char>::empty());
            (file_name, "")
        },
    };
    let mut test_path = join_path_str(relative_base_path, file_name);
    let mut i: usize = 0;
    proof { names.lemma_count(); }
    while names.contains(&test_path)
        invariant
            test_path@ == candidate(base, name, i as nat),
            forall|m: nat| m < i ==> names@.contains(#[trigger] candidate(base, name, m)),
            names == old(names),
            base == relative_base_path@,
            name == file_name@,
            i <= names.count(),
            names@.finite(),
            names@.len() <= names.count(),
            stem@ == split_ext(name).0,
            ext@ == split_ext(name).1,
        decreases names.count() - i,
    {
        proof {
            let tried = Seq::new((i + 1) as nat, |m: int| candidate(base, name, m as nat));
            assert forall|x: int, y: int| 0 <= x < tried.len() && 0 <= y < tried.len() && x != y
                implies tried[x] != tried[y] by {
                if tried[x] == tried[y] {
                    lemma_candidate_injective(base, name, x as nat, y as nat);
                }
            }
            assert(tried.no_duplicates());
            tried.unique_seq_to_set();
            assert forall|x: Seq<char>| tried.to_set().contains(x) implies names@.contains(x) by {
                let m = choose|m: int| 0 <= m < tried.len() && tried[m] == x;
                if m < i {
                    assert(names@.contains(candidate(base, name, m as nat)));
                }
            }
            vstd::set_lib::lemma_len_subset(tried.to_set(), names@);
            assert(i + 1 <= names.count());
        }
        i = i + 1;
        assert((i as u64) as nat == i as nat);
        let mut next = String::from_str(stem);
        push_char(&mut next, '_');
        push_decimal(&mut next, i as u64);
        next.append(ext);
        assert(next@ =~= split_ext(name).0 + seq!['_'] + decimal(i as nat) + split_ext(name).1);
        let next_str = next.as_str();
        assert(next_str@ == next@);
        test_path = join_path_str(relative_base_path, next_str);
        assert(test_path@ == join_path(base, next@));
        assert(test_path@ =~= candidate(base, name, i as nat));
    }
    proof {
        assert(is_first_free(base, name, names@, i as nat));
        lemma_first_free_unique(base, name, names@, i as nat);
    }
    names.insert(test_path.clone());
    test_path
}

} // verus!
