//! The tags of a message: a mapping from key to value.

use vstd::prelude::*;
use vstd::string::StringSliceAdditionalSpecFns;
use vstd::utf8::is_ascii_chars_encode_utf8;
use crate::grammar::{
    implicit_value, split, tag_key, tag_value, tags_of_entries, tags_of_run, EQUALS, SEMICOLON,
};
use crate::scan::find_byte;
use crate::text::piece;
use crate::words::lemma_offset_of_first;

verus! {

/// Whether two byte slices hold the same bytes.
pub fn same_bytes(a: &[u8], b: &[u8]) -> (same: bool)
    ensures
        same == (a@ == b@),
{
    let n = a.len();
    if n != b.len() {
        return false;
    }
    let mut i: usize = 0;
    while i < n
        invariant
            n == a@.len(),
            n == b@.len(),
            i <= n,
            forall|j: int| 0 <= j < i ==> a@[j] == b@[j],
        decreases n - i,
    {
        if a[i] != b[i] {
            return false;
        }
        i += 1;
    }
    assert(a@ =~= b@);
    true
}

/// The mapping that a list of key and value pairs denotes, where a later
/// pair replaces an earlier one with the same key.
pub open spec fn map_of_pairs(pairs: Seq<(&str, &str)>) -> Map<Seq<u8>, Seq<u8>>
    decreases pairs.len(),
{
    if pairs.len() == 0 {
        Map::empty()
    } else {
        map_of_pairs(pairs.drop_last()).insert(
            pairs.last().0.spec_bytes(),
            pairs.last().1.spec_bytes(),
        )
    }
}

/// Whether no key occurs twice in a list of pairs.
pub open spec fn distinct_keys(pairs: Seq<(&str, &str)>) -> bool {
    forall|i: int, j: int|
        0 <= i < j < pairs.len() ==> pairs[i].0.spec_bytes() != pairs[j].0.spec_bytes()
}

/// The keys of the mapping are the keys of the pairs. Where no key occurs
/// twice, each pair's value is the one stored, and there are as many keys as
/// pairs.
proof fn lemma_map_of_pairs(pairs: Seq<(&str, &str)>)
    ensures
        map_of_pairs(pairs).dom().finite(),
        forall|k: Seq<u8>|
            map_of_pairs(pairs).contains_key(k) <==> exists|i: int|
                0 <= i < pairs.len() && #[trigger] pairs[i].0.spec_bytes() == k,
        distinct_keys(pairs) ==> map_of_pairs(pairs).dom().len() == pairs.len(),
        distinct_keys(pairs) ==> forall|i: int|
            0 <= i < pairs.len() ==> map_of_pairs(pairs)[#[trigger] pairs[i].0.spec_bytes()]
                == pairs[i].1.spec_bytes(),
    decreases pairs.len(),
{
    if pairs.len() > 0 {
        let front = pairs.drop_last();
        let key = pairs.last().0.spec_bytes();
        lemma_map_of_pairs(front);
        assert forall|k: Seq<u8>|
            map_of_pairs(pairs).contains_key(k) <==> exists|i: int|
                0 <= i < pairs.len() && #[trigger] pairs[i].0.spec_bytes() == k by {
            if map_of_pairs(pairs).contains_key(k) {
                if k == key {
                    assert(pairs[pairs.len() - 1].0.spec_bytes() == k);
                } else {
                    let i = choose|i: int|
                        0 <= i < front.len() && #[trigger] front[i].0.spec_bytes() == k;
                    assert(pairs[i].0.spec_bytes() == k);
                }
            }
            if exists|i: int| 0 <= i < pairs.len() && #[trigger] pairs[i].0.spec_bytes() == k {
                let i = choose|i: int|
                    0 <= i < pairs.len() && #[trigger] pairs[i].0.spec_bytes() == k;
                if i < front.len() {
                    assert(front[i].0.spec_bytes() == k);
                }
            }
        }
        if distinct_keys(pairs) {
            assert(distinct_keys(front)) by {
                assert forall|i: int, j: int| 0 <= i < j < front.len() implies front[i].0.spec_bytes()
                    != front[j].0.spec_bytes() by {
                    assert(front[i] == pairs[i] && front[j] == pairs[j]);
                }
            }
            assert(!map_of_pairs(front).contains_key(key)) by {
                if map_of_pairs(front).contains_key(key) {
                    let i = choose|i: int|
                        0 <= i < front.len() && #[trigger] front[i].0.spec_bytes() == key;
                    assert(pairs[i].0.spec_bytes() == pairs[pairs.len() - 1].0.spec_bytes());
                }
            }
            assert forall|i: int| 0 <= i < pairs.len() implies map_of_pairs(pairs)[#[trigger] pairs[i].0.spec_bytes()]
                == pairs[i].1.spec_bytes() by {
                if i < front.len() {
                    assert(front[i] == pairs[i]);
                }
            }
        }
    }
}

/// Replacing the value of the pair at `at` stores that value under its key.
proof fn lemma_replace_value(pairs: Seq<(&str, &str)>, at: int, key: &str, value: &str)
    requires
        distinct_keys(pairs),
        0 <= at < pairs.len(),
        pairs[at].0.spec_bytes() == key.spec_bytes(),
    ensures
        distinct_keys(pairs.update(at, (key, value))),
        map_of_pairs(pairs.update(at, (key, value))) == map_of_pairs(pairs).insert(
            key.spec_bytes(),
            value.spec_bytes(),
        ),
    decreases pairs.len(),
{
    let changed = pairs.update(at, (key, value));
    let front = pairs.drop_last();
    if at == pairs.len() - 1 {
        assert(changed.drop_last() =~= front);
    } else {
        assert(distinct_keys(front)) by {
            assert forall|i: int, j: int| 0 <= i < j < front.len() implies front[i].0.spec_bytes()
                != front[j].0.spec_bytes() by {
                assert(front[i] == pairs[i] && front[j] == pairs[j]);
            }
        }
        lemma_replace_value(front, at, key, value);
        assert(changed.drop_last() =~= front.update(at, (key, value)));
        assert(changed.last() == pairs.last());
        assert(pairs[at].0.spec_bytes() != pairs[pairs.len() - 1].0.spec_bytes());
    }
    assert(map_of_pairs(changed) =~= map_of_pairs(pairs).insert(
        key.spec_bytes(),
        value.spec_bytes(),
    ));
}

/// The key and the value of one tag entry. An entry without `=` has the
/// value `true`.
pub fn read_tag<'a>(entry: &'a str) -> (pair: (&'a str, &'a str))
    ensures
        pair.0.spec_bytes() == tag_key(entry.spec_bytes()),
        pair.1.spec_bytes() == tag_value(entry.spec_bytes()),
{
    let bytes = entry.as_bytes();
    let n = bytes.len();
    let at = find_byte(bytes, 0, EQUALS);
    proof {
        assert(bytes@.skip(0) =~= bytes@);
        lemma_offset_of_first(bytes@, EQUALS);
    }
    let key = piece(entry, 0, at);
    if at < n {
        let value = piece(entry, at + 1, n);
        (key, value)
    } else {
        let value = "true";
        proof {
            reveal_strlit("true");
            is_ascii_chars_encode_utf8(value@);
            assert(value.spec_bytes() =~= implicit_value());
        }
        (key, value)
    }
}

/// The tags of one message. Keys are unique: storing a value under a key
/// that is present replaces the value that was there.
#[derive(Debug)]
pub struct Tags<'a> {
    pairs: Vec<(&'a str, &'a str)>,
}

impl<'a> View for Tags<'a> {
    type V = Map<Seq<u8>, Seq<u8>>;

    /// The mapping from each key's bytes to its value's bytes.
    closed spec fn view(&self) -> Map<Seq<u8>, Seq<u8>> {
        map_of_pairs(self.pairs@)
    }
}

impl<'a> Tags<'a> {
    #[verifier::type_invariant]
    spec fn keys_are_unique(&self) -> bool {
        distinct_keys(self.pairs@)
    }

    /// No tags.
    pub fn new() -> (tags: Self)
        ensures
            tags@ == Map::<Seq<u8>, Seq<u8>>::empty(),
    {
        Tags { pairs: Vec::new() }
    }

    /// The tags that a tag run holds: the text between `@` and the first
    /// space, with its entries separated by `;`.
    pub fn parse(run: &'a str) -> (tags: Self)
        ensures
            tags@ == tags_of_run(run.spec_bytes()),
    {
        let bytes = run.as_bytes();
        let n = bytes.len();
        let mut tags = Tags::new();
        let mut pos: usize = 0;
        let ghost mut done: Seq<Seq<u8>> = Seq::empty();
        proof {
            assert(bytes@.skip(0) =~= bytes@);
            assert(done + split(bytes@, SEMICOLON) =~= split(bytes@, SEMICOLON));
        }
        loop
            invariant_except_break
                pos <= n,
                pos == 0 || bytes@[pos - 1] == SEMICOLON,
                split(bytes@, SEMICOLON) == done + split(bytes@.skip(pos as int), SEMICOLON),
                tags@ == tags_of_entries(done),
            invariant
                n == bytes@.len(),
                bytes@ == run.spec_bytes(),
            ensures
                tags@ == tags_of_entries(split(bytes@, SEMICOLON)),
            decreases n - pos,
        {
            let end = find_byte(bytes, pos, SEMICOLON);
            proof {
                lemma_offset_of_first(bytes@.skip(pos as int), SEMICOLON);
                assert(end < n ==> bytes@[end as int] == bytes@.skip(pos as int)[end - pos]);
            }
            let entry = piece(run, pos, end);
            let pair = read_tag(entry);
            tags.insert(pair.0, pair.1);
            proof {
                let rest = bytes@.skip(pos as int);
                assert(rest.take(end - pos) =~= entry.spec_bytes());
                assert(done.push(entry.spec_bytes()).drop_last() =~= done);
                if end < n {
                    assert(rest.skip(end - pos + 1) =~= bytes@.skip(end + 1));
                    assert(done + split(rest, SEMICOLON) =~= done.push(entry.spec_bytes()) + split(
                        bytes@.skip(end + 1),
                        SEMICOLON,
                    ));
                } else {
                    assert(rest.take(end - pos) =~= rest);
                    assert(done + split(rest, SEMICOLON) =~= done.push(entry.spec_bytes()));
                }
                done = done.push(entry.spec_bytes());
            }
            if end >= n {
                break ;
            }
            pos = end + 1;
        }
        tags
    }

    /// The number of keys.
    pub fn len(&self) -> (n: usize)
        ensures
            self@.dom().finite(),
            n == self@.dom().len(),
    {
        proof {
            use_type_invariant(self);
            lemma_map_of_pairs(self.pairs@);
        }
        self.pairs.len()
    }

    /// Whether there is no tag at all.
    pub fn is_empty(&self) -> (empty: bool)
        ensures
            empty == (self@ == Map::<Seq<u8>, Seq<u8>>::empty()),
    {
        proof {
            use_type_invariant(self);
            lemma_map_of_pairs(self.pairs@);
            if self.pairs@.len() == 0 {
            } else {
                assert(self@.contains_key(self.pairs@[0].0.spec_bytes()));
            }
        }
        self.pairs.len() == 0
    }

    /// Where `key` stands among the pairs, if it does.
    fn position(&self, key: &str) -> (at: Option<usize>)
        ensures
            match at {
                Some(i) => i < self.pairs@.len() && self.pairs@[i as int].0.spec_bytes()
                    == key.spec_bytes(),
                None => forall|j: int|
                    0 <= j < self.pairs@.len() ==> self.pairs@[j].0.spec_bytes()
                        != key.spec_bytes(),
            },
    {
        let n = self.pairs.len();
        let mut i: usize = 0;
        while i < n
            invariant
                n == self.pairs@.len(),
                i <= n,
                forall|j: int|
                    0 <= j < i ==> self.pairs@[j].0.spec_bytes() != key.spec_bytes(),
            decreases n - i,
        {
            if same_bytes(self.pairs[i].0.as_bytes(), key.as_bytes()) {
                return Some(i);
            }
            i += 1;
        }
        None
    }

    /// The value stored under `key`, if there is one.
    pub fn get(&self, key: &str) -> (value: Option<&'a str>)
        ensures
            match value {
                Some(v) => self@.contains_key(key.spec_bytes()) && self@[key.spec_bytes()]
                    == v.spec_bytes(),
                None => !self@.contains_key(key.spec_bytes()),
            },
    {
        proof {
            use_type_invariant(self);
            lemma_map_of_pairs(self.pairs@);
        }
        match self.position(key) {
            Some(i) => Some(self.pairs[i].1),
            None => None,
        }
    }

    /// Whether a value is stored under `key`.
    pub fn contains_key(&self, key: &str) -> (found: bool)
        ensures
            found == self@.contains_key(key.spec_bytes()),
    {
        proof {
            use_type_invariant(self);
            lemma_map_of_pairs(self.pairs@);
        }
        self.position(key).is_some()
    }

    /// Every key with its value, each key once, in no order that callers
    /// may rely on.
    pub fn to_vec(&self) -> (pairs: Vec<(&'a str, &'a str)>)
        ensures
            distinct_keys(pairs@),
            map_of_pairs(pairs@) == self@,
    {
        proof {
            use_type_invariant(self);
        }
        let n = self.pairs.len();
        let mut pairs: Vec<(&'a str, &'a str)> = Vec::new();
        let mut i: usize = 0;
        while i < n
            invariant
                n == self.pairs@.len(),
                i <= n,
                pairs@ == self.pairs@.take(i as int),
            decreases n - i,
        {
            pairs.push(self.pairs[i]);
            proof {
                assert(pairs@ =~= self.pairs@.take(i + 1));
            }
            i += 1;
        }
        proof {
            assert(pairs@ =~= self.pairs@);
        }
        pairs
    }

    /// Stores `value` under `key`, in place of the value that was there if
    /// the key was present.
    pub fn insert(&mut self, key: &'a str, value: &'a str)
        ensures
            final(self)@ == old(self)@.insert(key.spec_bytes(), value.spec_bytes()),
    {
        proof {
            use_type_invariant(&*self);
            lemma_map_of_pairs(self.pairs@);
        }
        let found = self.position(key);
        let mut pairs: Vec<(&'a str, &'a str)> = Vec::new();
        core::mem::swap(&mut self.pairs, &mut pairs);
        match found {
            Some(i) => {
                proof {
                    lemma_replace_value(pairs@, i as int, key, value);
                }
                pairs[i] = (key, value);
            },
            None => {
                pairs.push((key, value));
                proof {
                    assert(pairs@.drop_last() =~= old(self).pairs@);
                }
            },
        }
        self.pairs = pairs;
    }
}

} // verus!
