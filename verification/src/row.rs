//! The stored record and the per-bucket collision chain.

use vstd::prelude::*;

verus! {

/// One stored record: a key `a` and two opaque payload fields `b` and `c`.
/// Records are immutable once created and may share a key with other records.
#[derive(Clone, Copy, Debug, PartialEq, Eq, Structural)]
pub struct Data {
    pub a: usize,
    pub b: usize,
    pub c: usize,
}

/// A collision chain: the singly linked sequence of records that share one
/// bucket. Each node exclusively owns the remainder of its chain.
pub enum Row {
    Cons(Data, Box<Row>),
    Nil,
}

impl Row {
    /// The chain as the mathematical sequence of its records, head first.
    pub open spec fn entries(self) -> Seq<Data>
        decreases self,
    {
        match self {
            Row::Nil => Seq::empty(),
            Row::Cons(d, rest) => seq![d] + rest.entries(),
        }
    }
}

impl View for Row {
    type V = Seq<Data>;

    open spec fn view(&self) -> Seq<Data> {
        self.entries()
    }
}

/// The first record in `s` whose key is `a`, if any.
pub open spec fn find_first(s: Seq<Data>, a: usize) -> Option<Data>
    decreases s.len(),
{
    if s.len() == 0 {
        None
    } else if s[0].a == a {
        Some(s[0])
    } else {
        find_first(s.drop_first(), a)
    }
}

/// `s` with its first record keyed `a` spliced out; `s` itself when no
/// record matches.
pub open spec fn remove_first(s: Seq<Data>, a: usize) -> Seq<Data>
    decreases s.len(),
{
    if s.len() == 0 {
        s
    } else if s[0].a == a {
        s.drop_first()
    } else {
        seq![s[0]] + remove_first(s.drop_first(), a)
    }
}

/// Whether some record in `s` has key `a`.
pub open spec fn has_key(s: Seq<Data>, a: usize) -> bool {
    exists|i: int| 0 <= i < s.len() && s[i].a == a
}

/// How many records in `s` have key `a`.
pub open spec fn count_key(s: Seq<Data>, a: usize) -> int
    decreases s.len(),
{
    if s.len() == 0 {
        0
    } else {
        (if s[0].a == a {
            1int
        } else {
            0int
        }) + count_key(s.drop_first(), a)
    }
}

/// A key is present in a non-empty sequence exactly when the head carries it
/// or the tail contains it.
pub proof fn lemma_has_key_unfold(s: Seq<Data>, a: usize)
    requires
        s.len() > 0,
    ensures
        has_key(s, a) == (s[0].a == a || has_key(s.drop_first(), a)),
{
    if s[0].a == a {
        assert(has_key(s, a));
    }
    if has_key(s.drop_first(), a) {
        let i = choose|i: int| 0 <= i < s.drop_first().len() && s.drop_first()[i].a == a;
        assert(s[i + 1].a == a);
    }
    if has_key(s, a) && s[0].a != a {
        let i = choose|i: int| 0 <= i < s.len() && s[i].a == a;
        assert(s.drop_first()[i - 1].a == a);
    }
}

/// `find_first` hits exactly when some record carries the key, and what it
/// returns is a record of `s` whose key is `a`.
pub proof fn lemma_find_first_spec(s: Seq<Data>, a: usize)
    ensures
        (find_first(s, a) is Some) == has_key(s, a),
        find_first(s, a) is Some ==> find_first(s, a).unwrap().a == a && s.contains(
            find_first(s, a).unwrap(),
        ),
    decreases s.len(),
{
    if s.len() == 0 {
        assert(!has_key(s, a));
    } else {
        lemma_has_key_unfold(s, a);
        if s[0].a == a {
            assert(s.contains(s[0]));
        } else {
            lemma_find_first_spec(s.drop_first(), a);
            if find_first(s, a) is Some {
                let d = find_first(s, a).unwrap();
                assert(s.drop_first().contains(d));
                let i = choose|i: int|
                    0 <= i < s.drop_first().len() && s.drop_first()[i] == d;
                assert(s[i + 1] == d);
            }
        }
    }
}

/// Counts are non-negative, and a key is present exactly when its count is
/// positive.
pub proof fn lemma_count_key_spec(s: Seq<Data>, a: usize)
    ensures
        count_key(s, a) >= 0,
        has_key(s, a) == (count_key(s, a) > 0),
    decreases s.len(),
{
    if s.len() == 0 {
        assert(!has_key(s, a));
    } else {
        lemma_has_key_unfold(s, a);
        lemma_count_key_spec(s.drop_first(), a);
    }
}

/// Splicing out an absent key changes nothing.
pub proof fn lemma_remove_first_absent(s: Seq<Data>, a: usize)
    requires
        !has_key(s, a),
    ensures
        remove_first(s, a) == s,
    decreases s.len(),
{
    if s.len() == 0 {
        assert(remove_first(s, a) == s);
    } else {
        lemma_has_key_unfold(s, a);
        lemma_remove_first_absent(s.drop_first(), a);
        assert(remove_first(s, a) =~= s);
    }
}

/// Splicing out a present key drops exactly one record with that key and
/// nothing else: the length and the key's count each fall by one.
pub proof fn lemma_remove_first_present(s: Seq<Data>, a: usize)
    requires
        has_key(s, a),
    ensures
        remove_first(s, a).len() == s.len() - 1,
        count_key(remove_first(s, a), a) == count_key(s, a) - 1,
    decreases s.len(),
{
    lemma_has_key_unfold(s, a);
    if s[0].a == a {
    } else {
        lemma_remove_first_present(s.drop_first(), a);
        let r = seq![s[0]] + remove_first(s.drop_first(), a);
        assert(r.drop_first() =~= remove_first(s.drop_first(), a));
    }
}

/// Splicing adds nothing: every record of the spliced chain was already a
/// record of the chain before.
pub proof fn lemma_remove_first_membership(s: Seq<Data>, a: usize)
    ensures
        forall|j: int|
            0 <= j < remove_first(s, a).len() ==> s.contains(#[trigger] remove_first(s, a)[j]),
    decreases s.len(),
{
    if s.len() == 0 {
    } else if s[0].a == a {
        assert forall|j: int| 0 <= j < remove_first(s, a).len() implies s.contains(
            remove_first(s, a)[j],
        ) by {
            assert(remove_first(s, a)[j] == s[j + 1]);
        }
    } else {
        lemma_remove_first_membership(s.drop_first(), a);
        let r = seq![s[0]] + remove_first(s.drop_first(), a);
        assert forall|j: int| 0 <= j < r.len() implies s.contains(r[j]) by {
            if j == 0 {
                assert(r[0] == s[0]);
            } else {
                assert(r[j] == remove_first(s.drop_first(), a)[j - 1]);
                assert(s.drop_first().contains(r[j]));
                let i = choose|i: int|
                    0 <= i < s.drop_first().len() && s.drop_first()[i] == r[j];
                assert(s[i + 1] == r[j]);
            }
        }
    }
}

impl Row {
    /// A chain holding exactly the one record `d`.
    pub fn new(d: Data) -> (r: Row)
        ensures
            r@ == seq![d],
    {
        let r = Row::Cons(d, Box::new(Row::Nil));
        proof {
            assert(Row::Nil.entries() == Seq::<Data>::empty());
            assert(r@ =~= seq![d]);
        }
        r
    }

    /// Pushes `d` onto the front of the chain: the new record becomes the
    /// head and the previous chain becomes its tail.
    pub fn prepend(self, d: Data) -> (r: Row)
        ensures
            r@ == seq![d] + self@,
    {
        Row::Cons(d, Box::new(self))
    }

    /// The first record with key `a`, scanning from the head; nothing when no
    /// record in the chain carries the key.
    pub fn find(&self, a: usize) -> (r: Option<&Data>)
        ensures
            match r {
                Some(d) => find_first(self@, a) == Some(*d),
                None => find_first(self@, a) is None,
            },
        decreases self,
    {
        match self {
            Row::Cons(data, tl) => {
                proof {
                    assert(self@[0] == *data);
                    assert(self@.drop_first() =~= tl@);
                }
                if data.a == a {
                    Some(data)
                } else {
                    tl.find(a)
                }
            },
            Row::Nil => None,
        }
    }

    /// The chain after the head, or nothing at the end of the chain.
    pub fn next(&self) -> (r: Option<&Row>)
        ensures
            match r {
                Some(rest) => self@.len() > 0 && rest@ == self@.drop_first(),
                None => self@.len() == 0,
            },
    {
        match self {
            Row::Cons(_, rest) => {
                proof {
                    assert(self@.drop_first() =~= rest@);
                }
                Some(rest)
            },
            Row::Nil => None,
        }
    }

    /// The head record of a non-empty chain.
    pub fn data(&self) -> (r: &Data)
        requires
            self@.len() > 0,
        ensures
            *r == self@[0],
    {
        match self {
            Row::Cons(data, _) => data,
            Row::Nil => unreached(),
        }
    }

    /// Splices out the first record with key `a`, rewiring the link that
    /// pointed at it; reports whether a record was removed.
    pub fn remove(&mut self, a: usize) -> (removed: bool)
        ensures
            final (self)@ == remove_first(old(self)@, a),
            removed == has_key(old(self)@, a),
        decreases *old(self),
    {
        let mut taken = Row::Nil;
        core::mem::swap(self, &mut taken);
        match taken {
            Row::Nil => {
                proof {
                    assert(!has_key(old(self)@, a));
                }
                false
            },
            Row::Cons(d, rest) => {
                proof {
                    assert(old(self)@[0] == d);
                    assert(old(self)@.drop_first() =~= rest@);
                    lemma_has_key_unfold(old(self)@, a);
                }
                if d.a == a {
                    *self = *rest;
                    true
                } else {
                    let mut tail = *rest;
                    let removed = tail.remove(a);
                    *self = Row::Cons(d, Box::new(tail));
                    proof {
                        assert(final (self)@ =~= remove_first(old(self)@, a));
                    }
                    removed
                }
            },
        }
    }

    /// Appends every record of the chain to `out`, head first.
    pub fn append_to(&self, out: &mut Vec<Data>)
        ensures
            final (out)@ == old(out)@ + self@,
        decreases self,
    {
        match self {
            Row::Nil => {
                proof {
                    assert(old(out)@ + self@ =~= old(out)@);
                }
            },
            Row::Cons(d, rest) => {
                out.push(*d);
                rest.append_to(out);
                proof {
                    assert(old(out)@.push(*d) + rest@ =~= old(out)@ + self@);
                }
            },
        }
    }
}

} // verus!
