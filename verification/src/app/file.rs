use vstd::prelude::*;
use vstd::seq_lib::group_to_multiset_ensures;
use vstd::multiset::axiom_count_le_len;
use vstd::multiset::group_multiset_axioms;
use vstd::multiset::Multiset;

pub mod date;

verus! {

broadcast use group_to_multiset_ensures, group_multiset_axioms;

/// Failure to open a store directory: the path names a regular file, or the
/// directory could not be created.
#[derive(Clone, Copy, Debug, PartialEq, Eq, Structural)]
pub enum DirectoryError {
    IsFile,
    CreationFailed,
}

/// Strict lexicographic order on identifier text, by code point, with a
/// proper prefix ordered before its extensions. Entry identifiers are
/// timestamps rendered so that this order is chronological.
pub open spec fn lex_lt(a: Seq<char>, b: Seq<char>) -> bool
    decreases a.len(),
{
    if b.len() == 0 {
        false
    } else if a.len() == 0 {
        true
    } else if a[0] != b[0] {
        (a[0] as u32) < (b[0] as u32)
    } else {
        lex_lt(a.drop_first(), b.drop_first())
    }
}

/// Newest first: no element is lexicographically below a later one.
pub open spec fn sorted_desc(s: Seq<Seq<char>>) -> bool {
    forall|i: int, j: int| 0 <= i <= j < s.len() ==> !lex_lt(s[i], s[j])
}

/// The texts of a sequence of strings.
pub open spec fn text_views(s: Seq<String>) -> Seq<Seq<char>> {
    Seq::new(s.len(), |i: int| s[i]@)
}

pub proof fn lemma_lex_lt_irreflexive(a: Seq<char>)
    ensures
        !lex_lt(a, a),
    decreases a.len(),
{
    if a.len() > 0 {
        lemma_lex_lt_irreflexive(a.drop_first());
    }
}

/// The order is total: two distinct texts compare one way or the other.
pub proof fn lemma_lex_lt_connected(a: Seq<char>, b: Seq<char>)
    requires
        a != b,
    ensures
        lex_lt(a, b) || lex_lt(b, a),
    decreases a.len(),
{
    if a.len() == 0 || b.len() == 0 {
        if a.len() == 0 && b.len() == 0 {
            assert(a =~= b);
        }
    } else if a[0] != b[0] {
        if (a[0] as u32) == (b[0] as u32) {
            vstd::utf8::char_u32_cast(a[0], a[0] as u32);
            vstd::utf8::char_u32_cast(b[0], b[0] as u32);
        }
    } else {
        if a.drop_first() == b.drop_first() {
            assert(a.drop_first().len() == a.len() - 1);
            assert(b.drop_first().len() == b.len() - 1);
            assert(a.len() == b.len());
            assert forall|i: int| 0 <= i < a.len() implies a[i] == b[i] by {
                if i > 0 {
                    assert(a[i] == a.drop_first()[i - 1]);
                    assert(b[i] == b.drop_first()[i - 1]);
                }
            }
            assert(a =~= b);
        } else {
            lemma_lex_lt_connected(a.drop_first(), b.drop_first());
        }
    }
}

pub proof fn lemma_lex_lt_transitive(a: Seq<char>, b: Seq<char>, c: Seq<char>)
    requires
        lex_lt(a, b),
        lex_lt(b, c),
    ensures
        lex_lt(a, c),
    decreases a.len(),
{
    if a.len() == 0 {
    } else if a[0] == b[0] && b[0] == c[0] {
        lemma_lex_lt_transitive(a.drop_first(), b.drop_first(), c.drop_first());
    }
}

/// Exec comparison realising [`lex_lt`] on string contents.
#[verifier::loop_isolation(false)]
fn text_lt(a: &String, b: &String) -> (r: bool)
    ensures
        r == lex_lt(a@, b@),
{
    let alen = a.as_str().unicode_len();
    let blen = b.as_str().unicode_len();
    let mut i: usize = 0;
    proof {
        assert(a@.skip(0) =~= a@);
        assert(b@.skip(0) =~= b@);
    }
    loop
        invariant
            i <= alen,
            i <= blen,
            alen == a@.len(),
            blen == b@.len(),
            lex_lt(a@, b@) == lex_lt(a@.skip(i as int), b@.skip(i as int)),
        decreases alen - i,
    {
        if i >= alen || i >= blen {
            return i < blen;
        }
        let ca = a.as_str().get_char(i);
        let cb = b.as_str().get_char(i);
        if ca != cb {
            return (ca as u32) < (cb as u32);
        }
        proof {
            assert(a@.skip(i as int).drop_first() =~= a@.skip(i as int + 1));
            assert(b@.skip(i as int).drop_first() =~= b@.skip(i as int + 1));
        }
        i = i + 1;
    }
}

/// An empty sequence of texts holds the empty multiset.
proof fn lemma_empty_text_multiset(s: Seq<Seq<char>>)
    requires
        s.len() == 0,
    ensures
        s.to_multiset() == Multiset::<Seq<char>>::empty(),
{
    s.to_multiset_ensures();
    assert forall|x: Seq<char>| s.to_multiset().count(x) == 0 by {
        axiom_count_le_len(s.to_multiset(), x);
    }
    assert(s.to_multiset() =~= Multiset::<Seq<char>>::empty());
}

/// Sort identifiers newest first, keeping exactly the same collection of
/// texts (as a multiset; identifiers in a store are in fact unique).
#[verifier::loop_isolation(false)]
fn sort_desc(input: Vec<String>) -> (out: Vec<String>)
    ensures
        text_views(out@).to_multiset() == text_views(input@).to_multiset(),
        sorted_desc(text_views(out@)),
{
    let mut remaining = input;
    let ghost orig = text_views(remaining@).to_multiset();
    let mut out: Vec<String> = Vec::new();
    proof {
        assert(text_views(out@) =~= Seq::<Seq<char>>::empty());
        lemma_empty_text_multiset(text_views(out@));
        assert(text_views(out@).to_multiset().add(text_views(remaining@).to_multiset()) =~= orig);
    }
    loop
        invariant
            orig == text_views(input@).to_multiset(),
            text_views(out@).to_multiset().add(text_views(remaining@).to_multiset()) == orig,
            sorted_desc(text_views(out@)),
            forall|x: int, y: int|
                0 <= x < out@.len() && 0 <= y < remaining@.len() ==> !lex_lt(
                    #[trigger] text_views(out@)[x],
                    #[trigger] text_views(remaining@)[y],
                ),
        decreases remaining@.len(),
    {
        if remaining.len() == 0 {
            proof {
                lemma_empty_text_multiset(text_views(remaining@));
                assert(text_views(out@).to_multiset().add(
                    text_views(remaining@).to_multiset(),
                ) =~= text_views(out@).to_multiset());
            }
            return out;
        }
        let mut m: usize = 0;
        let mut k: usize = 1;
        proof {
            lemma_lex_lt_irreflexive(text_views(remaining@)[0]);
        }
        while k < remaining.len()
            invariant
                remaining@.len() > 0,
                m < k,
                k <= remaining@.len(),
                forall|j: int|
                    0 <= j < k ==> !lex_lt(
                        text_views(remaining@)[m as int],
                        #[trigger] text_views(remaining@)[j],
                    ),
            decreases remaining@.len() - k,
        {
            if text_lt(&remaining[m], &remaining[k]) {
                proof {
                    let rv = text_views(remaining@);
                    assert(lex_lt(rv[m as int], rv[k as int]));
                    assert forall|j: int| 0 <= j < k implies !lex_lt(
                        rv[k as int],
                        #[trigger] rv[j],
                    ) by {
                        if lex_lt(rv[k as int], rv[j]) {
                            lemma_lex_lt_transitive(rv[m as int], rv[k as int], rv[j]);
                        }
                    }
                    lemma_lex_lt_irreflexive(rv[k as int]);
                }
                m = k;
            }
            k = k + 1;
        }
        let ghost pre_rem = remaining@;
        let ghost pre_out = out@;
        let picked = remaining.remove(m);
        out.push(picked);
        proof {
            let rv = text_views(pre_rem);
            let ov = text_views(pre_out);
            rv.to_multiset_ensures();
            ov.to_multiset_ensures();
            assert(rv[m as int] == picked@);
            assert(text_views(remaining@) =~= rv.remove(m as int));
            assert(text_views(out@) =~= ov.push(picked@));
            assert(rv.contains(rv[m as int]));
            assert(rv.to_multiset().count(picked@) > 0);
            // the picked maximum moves from one side of the split to the other
            assert(text_views(out@).to_multiset() == ov.push(picked@).to_multiset());
            assert(text_views(remaining@).to_multiset() == rv.remove(m as int).to_multiset());
            assert(ov.push(picked@).to_multiset().add(rv.remove(m as int).to_multiset()) =~= ov.to_multiset().add(rv.to_multiset()));
            // the new last element of `out` is no smaller than anything left
            assert forall|x: int, y: int|
                0 <= x < out@.len() && 0 <= y < remaining@.len() implies !lex_lt(
                #[trigger] text_views(out@)[x],
                #[trigger] text_views(remaining@)[y],
            ) by {
                let yy = if y < m { y } else { y + 1 };
                assert(text_views(remaining@)[y] == rv[yy]);
                if x < pre_out.len() {
                    assert(text_views(out@)[x] == ov[x]);
                } else {
                    assert(text_views(out@)[x] == picked@);
                }
            }
            assert(sorted_desc(text_views(out@)));
        }
    }
}

/// The identifiers of a store enumeration, in order.
pub open spec fn ids_of(m: Seq<(Seq<char>, Seq<u8>)>) -> Seq<Seq<char>> {
    Seq::new(m.len(), |i: int| m[i].0)
}

/// The position of the entry carrying `id` in a store enumeration, or -1 when
/// no entry carries it.
pub open spec fn id_index(m: Seq<(Seq<char>, Seq<u8>)>, id: Seq<char>) -> int
    decreases m.len(),
{
    if m.len() == 0 {
        -1
    } else if m[0].0 == id {
        0
    } else {
        let rest = id_index(m.drop_first(), id);
        if rest < 0 {
            -1
        } else {
            rest + 1
        }
    }
}

/// Some entry of `m` carries the identifier `id`.
pub open spec fn has_id(m: Seq<(Seq<char>, Seq<u8>)>, id: Seq<char>) -> bool {
    id_index(m, id) >= 0
}

/// Where `id_index` finds an identifier it points at an entry carrying it;
/// where it finds none, no entry carries it.
pub proof fn lemma_id_index_props(m: Seq<(Seq<char>, Seq<u8>)>, id: Seq<char>)
    ensures
        has_id(m, id) ==> 0 <= id_index(m, id) < m.len() && m[id_index(m, id)].0 == id,
        !has_id(m, id) ==> forall|i: int| 0 <= i < m.len() ==> (#[trigger] m[i]).0 != id,
    decreases m.len(),
{
    if m.len() > 0 && m[0].0 != id {
        lemma_id_index_props(m.drop_first(), id);
        assert forall|i: int| 1 <= i < m.len() implies m[i] == m.drop_first()[i - 1] by {}
    }
}

/// A forward scan that stops at the first match computes `id_index`.
pub proof fn lemma_id_index_found(m: Seq<(Seq<char>, Seq<u8>)>, id: Seq<char>, i: int)
    requires
        0 <= i < m.len(),
        m[i].0 == id,
        forall|j: int| 0 <= j < i ==> (#[trigger] m[j]).0 != id,
    ensures
        id_index(m, id) == i,
    decreases m.len(),
{
    if i > 0 {
        assert forall|j: int| 0 <= j < i - 1 implies (#[trigger] m.drop_first()[j]).0 != id by {
            assert(m.drop_first()[j] == m[j + 1]);
        }
        assert(m.drop_first()[i - 1] == m[i]);
        lemma_id_index_found(m.drop_first(), id, i - 1);
    }
}

/// A scan that matches nowhere shows the identifier absent.
pub proof fn lemma_id_index_absent(m: Seq<(Seq<char>, Seq<u8>)>, id: Seq<char>)
    requires
        forall|j: int| 0 <= j < m.len() ==> (#[trigger] m[j]).0 != id,
    ensures
        id_index(m, id) == -1,
    decreases m.len(),
{
    if m.len() > 0 {
        assert forall|j: int| 0 <= j < m.len() - 1 implies (#[trigger] m.drop_first()[j]).0
            != id by {
            assert(m.drop_first()[j] == m[j + 1]);
        }
        lemma_id_index_absent(m.drop_first(), id);
    }
}

/// Clone ciphertext bytes.
fn clone_bytes(v: &Vec<u8>) -> (r: Vec<u8>)
    ensures
        r@ == v@,
{
    let r = v.clone();
    proof {
        assert(r@ =~= v@);
    }
    r
}

/// Clone identifier text.
fn clone_text(s: &String) -> (r: String)
    ensures
        r@ == s@,
{
    s.clone()
}

/// Clone a listing.
fn clone_texts(v: &Vec<String>) -> (r: Vec<String>)
    ensures
        text_views(r@) == text_views(v@),
{
    let r = v.clone();
    proof {
        assert(text_views(r@) =~= text_views(v@));
    }
    r
}

/// The cached listing was rebuilt from the store: sorted newest first, made
/// of exactly the store's identifiers, with the count brought up to date.
pub open spec fn cache_refreshed(pre: Directory, post: Directory) -> bool {
    &&& post.cache().to_multiset() == pre.ids().to_multiset()
    &&& post.cache().len() == pre.model().len()
    &&& sorted_desc(post.cache())
    &&& post.last_count() == pre.model().len()
}

/// The cached listing was left as it stood.
pub open spec fn cache_kept(pre: Directory, post: Directory) -> bool {
    &&& post.cache() == pre.cache()
    &&& post.last_count() == pre.last_count()
}

/// One journal directory: the entries it holds (identifier and ciphertext
/// each, in enumeration order), a cached listing sorted newest first, and the
/// entry count observed at the last refresh, which decides staleness.
pub struct Directory {
    path: String,
    files: Vec<(String, Vec<u8>)>,
    entries: Vec<String>,
    last_len: usize,
}

impl Directory {
    /// The store's contents: each entry's identifier and ciphertext, in
    /// enumeration order.
    pub closed spec fn model(self) -> Seq<(Seq<char>, Seq<u8>)> {
        Seq::new(self.files@.len(), |i: int| (self.files@[i].0@, self.files@[i].1@))
    }

    /// The identifiers of the entries, in enumeration order.
    pub open spec fn ids(self) -> Seq<Seq<char>> {
        ids_of(self.model())
    }

    /// The cached listing, newest first whenever it is fresh.
    pub closed spec fn cache(self) -> Seq<Seq<char>> {
        text_views(self.entries@)
    }

    /// The entry count observed when the cache was last refreshed.
    pub closed spec fn last_count(self) -> int {
        self.last_len as int
    }

    /// The directory path the store is bound to.
    pub closed spec fn dir_path(self) -> Seq<char> {
        self.path@
    }

    /// Identifiers are unique within a store, and the cached listing always
    /// has exactly as many names as the count recorded at its last refresh
    /// (so whenever the count check passes, the listing's length already
    /// equals the store's).
    pub open spec fn wf(self) -> bool {
        &&& forall|i: int, j: int|
            0 <= i < j < self.model().len() ==> (#[trigger] self.model()[i]).0 != (
            #[trigger] self.model()[j]).0
        &&& self.cache().len() == self.last_count()
    }

    /// Bind a store to a directory path. The filesystem side of opening
    /// (creating the directory, rejecting a regular file) belongs to the
    /// caller that performs I/O; a fresh store starts from an empty
    /// enumeration which that caller fills through `insert`.
    pub fn new(path: String) -> (d: Directory)
        ensures
            d.model() == Seq::<(Seq<char>, Seq<u8>)>::empty(),
            d.cache() == Seq::<Seq<char>>::empty(),
            d.last_count() == 0,
            d.dir_path() == path@,
            d.wf(),
    {
        let d = Directory { path, files: Vec::new(), entries: Vec::new(), last_len: 0 };
        proof {
            assert(d.model() =~= Seq::<(Seq<char>, Seq<u8>)>::empty());
            assert(d.cache() =~= Seq::<Seq<char>>::empty());
        }
        d
    }

    /// How many entries the store holds right now.
    pub fn len(&self) -> (n: usize)
        ensures
            n == self.model().len(),
    {
        self.files.len()
    }

    /// Write ciphertext under an identifier: replace the entry if the
    /// identifier is already present (as overwriting its file would do),
    /// append a new entry otherwise. The cached listing is deliberately left
    /// alone; staleness is caught by the count check in `entries`.
    #[verifier::loop_isolation(false)]
    pub fn insert(&mut self, id: String, bytes: Vec<u8>)
        requires
            old(self).wf(),
        ensures
            final(self).wf(),
            final(self).cache() == old(self).cache(),
            final(self).last_count() == old(self).last_count(),
            final(self).dir_path() == old(self).dir_path(),
            has_id(old(self).model(), id@) ==> final(self).model() == old(self).model().update(
                id_index(old(self).model(), id@),
                (id@, bytes@),
            ),
            !has_id(old(self).model(), id@) ==> final(self).model() == old(self).model().push(
                (id@, bytes@),
            ),
    {
        let n = self.files.len();
        let mut i: usize = 0;
        while i < n
            invariant
                *self == *old(self),
                n == self.files@.len(),
                i <= n,
                forall|j: int| 0 <= j < i ==> (#[trigger] self.model()[j]).0 != id@,
            decreases n - i,
        {
            if self.files[i].0 == id {
                let ghost pre = self.model();
                self.files.set(i, (id, bytes));
                proof {
                    lemma_id_index_found(pre, id@, i as int);
                    assert(self.model() =~= pre.update(i as int, (id@, bytes@)));
                    assert forall|x: int, y: int|
                        0 <= x < y < self.model().len() implies (#[trigger] self.model()[x]).0 != (
                    #[trigger] self.model()[y]).0 by {
                        assert(old(self).model()[x].0 != old(self).model()[y].0);
                        assert(pre[x].0 == self.model()[x].0);
                        assert(pre[y].0 == self.model()[y].0);
                    }
                }
                return ;
            }
            i = i + 1;
        }
        let ghost pre = self.model();
        self.files.push((id, bytes));
        proof {
            lemma_id_index_absent(pre, id@);
            assert(self.model() =~= pre.push((id@, bytes@)));
            assert forall|x: int, y: int|
                0 <= x < y < self.model().len() implies (#[trigger] self.model()[x]).0 != (
            #[trigger] self.model()[y]).0 by {
                if y < pre.len() {
                    assert(self.model()[x] == pre[x]);
                    assert(self.model()[y] == pre[y]);
                } else {
                    assert(self.model()[y].0 == id@);
                    assert(self.model()[x] == pre[x]);
                }
            }
        }
    }

    /// Read the ciphertext stored under an identifier, if some entry carries
    /// it.
    #[verifier::loop_isolation(false)]
    pub fn get(&self, id: &String) -> (r: Option<Vec<u8>>)
        requires
            self.wf(),
        ensures
            r is Some <==> has_id(self.model(), id@),
            r is Some ==> r->0@ == self.model()[id_index(self.model(), id@)].1,
    {
        let n = self.files.len();
        let mut i: usize = 0;
        while i < n
            invariant
                n == self.files@.len(),
                i <= n,
                forall|j: int| 0 <= j < i ==> (#[trigger] self.model()[j]).0 != id@,
            decreases n - i,
        {
            if self.files[i].0 == *id {
                let bytes = clone_bytes(&self.files[i].1);
                proof {
                    lemma_id_index_found(self.model(), id@, i as int);
                }
                return Option::Some(bytes);
            }
            i = i + 1;
        }
        proof {
            lemma_id_index_absent(self.model(), id@);
        }
        Option::None
    }

    /// Delete the entry carrying an identifier; reports whether one existed.
    #[verifier::loop_isolation(false)]
    pub fn remove(&mut self, id: &String) -> (r: bool)
        requires
            old(self).wf(),
        ensures
            final(self).wf(),
            final(self).cache() == old(self).cache(),
            final(self).last_count() == old(self).last_count(),
            final(self).dir_path() == old(self).dir_path(),
            r == has_id(old(self).model(), id@),
            r ==> final(self).model() == old(self).model().remove(
                id_index(old(self).model(), id@),
            ),
            !r ==> final(self).model() == old(self).model(),
    {
        let n = self.files.len();
        let mut i: usize = 0;
        while i < n
            invariant
                *self == *old(self),
                n == self.files@.len(),
                i <= n,
                forall|j: int| 0 <= j < i ==> (#[trigger] self.model()[j]).0 != id@,
            decreases n - i,
        {
            if self.files[i].0 == *id {
                let ghost pre = self.model();
                self.files.remove(i);
                proof {
                    lemma_id_index_found(pre, id@, i as int);
                    assert(self.model() =~= pre.remove(i as int));
                    assert forall|x: int, y: int|
                        0 <= x < y < self.model().len() implies (#[trigger] self.model()[x]).0 != (
                    #[trigger] self.model()[y]).0 by {
                        let xx: int = if x < i { x } else { x + 1 };
                        let yy: int = if y < i { y } else { y + 1 };
                        assert(old(self).model()[xx].0 != old(self).model()[yy].0);
                        assert(self.model()[x] == pre[xx]);
                        assert(self.model()[y] == pre[yy]);
                    }
                }
                return true;
            }
            i = i + 1;
        }
        proof {
            lemma_id_index_absent(self.model(), id@);
        }
        false
    }

    /// Rebuild the cached listing from the store, newest first, and record
    /// the entry count it was built from.
    #[verifier::loop_isolation(false)]
    pub fn update_entries(&mut self)
        requires
            old(self).wf(),
        ensures
            final(self).model() == old(self).model(),
            final(self).dir_path() == old(self).dir_path(),
            final(self).last_count() == old(self).model().len(),
            final(self).wf(),
            final(self).cache().to_multiset() == old(self).ids().to_multiset(),
            sorted_desc(final(self).cache()),
    {
        let n = self.files.len();
        let mut names: Vec<String> = Vec::new();
        let mut i: usize = 0;
        proof {
            assert(text_views(names@) =~= self.ids().take(0));
        }
        while i < n
            invariant
                *self == *old(self),
                n == self.files@.len(),
                i <= n,
                text_views(names@) == self.ids().take(i as int),
            decreases n - i,
        {
            let ghost pre_names = names@;
            let name = clone_text(&self.files[i].0);
            names.push(name);
            proof {
                assert forall|j: int| 0 <= j <= i as int implies text_views(names@)[j]
                    == self.ids().take(i as int + 1)[j] by {
                    if j < i as int {
                        assert(text_views(names@)[j] == pre_names[j]@);
                        assert(text_views(pre_names)[j] == self.ids().take(i as int)[j]);
                    } else {
                        assert(names@[j] == name);
                    }
                }
                assert(text_views(names@) =~= self.ids().take(i as int + 1));
            }
            i = i + 1;
        }
        proof {
            assert(self.ids().take(n as int) =~= self.ids());
        }
        self.entries = sort_desc(names);
        self.last_len = n;
        proof {
            self.cache().to_multiset_ensures();
            self.ids().to_multiset_ensures();
            assert(self.cache().len() == self.ids().len());
        }
    }

    /// The current listing, newest first. It is refreshed from the store only
    /// when the entry count changed since the last refresh; a deletion and an
    /// insertion in between leave the count unchanged and go unnoticed, a
    /// known limitation of the count-based staleness check.
    pub fn entries(&mut self) -> (r: Vec<String>)
        requires
            old(self).wf(),
        ensures
            final(self).model() == old(self).model(),
            final(self).dir_path() == old(self).dir_path(),
            final(self).wf(),
            text_views(r@) == final(self).cache(),
            r@.len() == old(self).model().len(),
            old(self).model().len() != old(self).last_count() ==> cache_refreshed(
                *old(self),
                *final(self),
            ),
            old(self).model().len() == old(self).last_count() ==> cache_kept(
                *old(self),
                *final(self),
            ),
    {
        let n = self.files.len();
        if n != self.last_len {
            self.update_entries();
        }
        clone_texts(&self.entries)
    }

    /// The identifier of the entry at position `n` of the current listing
    /// (position 0 is the newest surviving entry), `None` when out of range.
    /// The identifier doubles as the entry's filename under the store
    /// directory.
    pub fn nth_path(&mut self, n: usize) -> (r: Option<String>)
        requires
            old(self).wf(),
        ensures
            final(self).model() == old(self).model(),
            final(self).dir_path() == old(self).dir_path(),
            final(self).wf(),
            old(self).model().len() != old(self).last_count() ==> cache_refreshed(
                *old(self),
                *final(self),
            ),
            old(self).model().len() == old(self).last_count() ==> cache_kept(
                *old(self),
                *final(self),
            ),
            n < final(self).cache().len() ==> r is Some && r->0@ == final(self).cache()[n as int],
            n >= final(self).cache().len() ==> r is None,
    {
        let list = self.entries();
        if n < list.len() {
            Option::Some(clone_text(&list[n]))
        } else {
            Option::None
        }
    }

    /// A filename for a fresh entry: the current local timestamp. Nothing is
    /// reserved; the caller must write under it promptly.
    pub fn new_path(&self) -> (r: String)
        ensures
            date::clock_tail_shape(r@),
    {
        date::current_string()
    }

    /// The directory path, for the caller that performs the actual I/O.
    pub fn path(&self) -> (r: &String)
        ensures
            r@ == self.dir_path(),
    {
        &self.path
    }

    /// The identifier and ciphertext of the entry at an enumeration position.
    pub fn file_at(&self, i: usize) -> (r: Option<(String, Vec<u8>)>)
        ensures
            i < self.model().len() ==> r is Some && (r->0).0@ == self.model()[i as int].0
                && (r->0).1@ == self.model()[i as int].1,
            i >= self.model().len() ==> r is None,
    {
        if i < self.files.len() {
            let id = clone_text(&self.files[i].0);
            let bytes = clone_bytes(&self.files[i].1);
            Option::Some((id, bytes))
        } else {
            Option::None
        }
    }

    /// Overwrite the ciphertext at an enumeration position, keeping the
    /// identifier there; reports whether the position exists.
    pub fn set_bytes_at(&mut self, i: usize, bytes: Vec<u8>) -> (r: bool)
        requires
            old(self).wf(),
        ensures
            final(self).wf(),
            final(self).cache() == old(self).cache(),
            final(self).last_count() == old(self).last_count(),
            final(self).dir_path() == old(self).dir_path(),
            i < old(self).model().len() ==> r && final(self).model() == old(self).model().update(
                i as int,
                (old(self).model()[i as int].0, bytes@),
            ),
            i >= old(self).model().len() ==> !r && final(self).model() == old(self).model(),
    {
        if i < self.files.len() {
            let id = clone_text(&self.files[i].0);
            let ghost pre = self.model();
            self.files.set(i, (id, bytes));
            proof {
                assert(self.model() =~= pre.update(i as int, (pre[i as int].0, bytes@)));
                assert forall|x: int, y: int|
                    0 <= x < y < self.model().len() implies (#[trigger] self.model()[x]).0 != (
                #[trigger] self.model()[y]).0 by {
                    assert(pre[x].0 == self.model()[x].0);
                    assert(pre[y].0 == self.model()[y].0);
                }
            }
            true
        } else {
            false
        }
    }
}

/// An identifier is carried by some entry exactly when it is among the
/// store's identifiers.
pub proof fn lemma_has_id_iff_contains(m: Seq<(Seq<char>, Seq<u8>)>, id: Seq<char>)
    ensures
        has_id(m, id) <==> ids_of(m).contains(id),
{
    lemma_id_index_props(m, id);
    if has_id(m, id) {
        assert(ids_of(m)[id_index(m, id)] == id);
    } else {
        assert forall|i: int| 0 <= i < ids_of(m).len() implies ids_of(m)[i] != id by {
            assert(m[i].0 != id);
        }
    }
}

/// In a fresh listing the first identifier is maximal among the store's
/// identifiers: position 0 denotes the newest surviving entry.
pub proof fn lemma_newest_first(cache: Seq<Seq<char>>, m: Seq<(Seq<char>, Seq<u8>)>)
    requires
        sorted_desc(cache),
        cache.to_multiset() == ids_of(m).to_multiset(),
        cache.len() > 0,
    ensures
        forall|i: int| 0 <= i < m.len() ==> !lex_lt(cache[0], (#[trigger] m[i]).0),
{
    assert forall|i: int| 0 <= i < m.len() implies !lex_lt(cache[0], (#[trigger] m[i]).0) by {
        let id = m[i].0;
        assert(ids_of(m)[i] == id);
        ids_of(m).to_multiset_ensures();
        cache.to_multiset_ensures();
        assert(ids_of(m).contains(id));
        assert(cache.to_multiset().count(id) > 0);
        assert(cache.contains(id));
        let k = choose|k: int| 0 <= k < cache.len() && cache[k] == id;
        assert(!lex_lt(cache[0], cache[k]));
    }
}

/// Two listings sorted newest first, free of duplicates and holding exactly
/// the same identifiers are the same listing, position by position.
pub proof fn lemma_sorted_unique_listing_equal(s1: Seq<Seq<char>>, s2: Seq<Seq<char>>)
    requires
        sorted_desc(s1),
        sorted_desc(s2),
        s1.no_duplicates(),
        s1.to_multiset() == s2.to_multiset(),
    ensures
        s1 == s2,
    decreases s1.len(),
{
    s1.to_multiset_ensures();
    s2.to_multiset_ensures();
    assert(s1.len() == s2.len());
    if s1.len() == 0 {
        assert(s1 =~= s2);
    } else {
        assert(s1.contains(s1[0]));
        assert(s2.to_multiset().count(s1[0]) > 0);
        assert(s2.contains(s1[0]));
        let k2 = choose|k: int| 0 <= k < s2.len() && s2[k] == s1[0];
        assert(!lex_lt(s2[0], s1[0]));
        assert(s2.contains(s2[0]));
        assert(s1.to_multiset().count(s2[0]) > 0);
        assert(s1.contains(s2[0]));
        let k1 = choose|k: int| 0 <= k < s1.len() && s1[k] == s2[0];
        assert(!lex_lt(s1[0], s2[0]));
        if s1[0] != s2[0] {
            lemma_lex_lt_connected(s1[0], s2[0]);
        }
        assert(s1[0] == s2[0]);
        let t1 = s1.drop_first();
        let t2 = s2.drop_first();
        assert(t1 =~= s1.remove(0));
        assert(t2 =~= s2.remove(0));
        assert(t1.to_multiset() == s1.to_multiset().remove(s1[0]));
        assert(t2.to_multiset() == s2.to_multiset().remove(s2[0]));
        assert(sorted_desc(t1)) by {
            assert forall|i: int, j: int| 0 <= i <= j < t1.len() implies !lex_lt(
                t1[i],
                t1[j],
            ) by {
                assert(t1[i] == s1[i + 1]);
                assert(t1[j] == s1[j + 1]);
            }
        }
        assert(sorted_desc(t2)) by {
            assert forall|i: int, j: int| 0 <= i <= j < t2.len() implies !lex_lt(
                t2[i],
                t2[j],
            ) by {
                assert(t2[i] == s2[i + 1]);
                assert(t2[j] == s2[j + 1]);
            }
        }
        assert(t1.no_duplicates()) by {
            assert forall|i: int, j: int|
                0 <= i < t1.len() && 0 <= j < t1.len() && i != j implies t1[i] != t1[j] by {
                assert(t1[i] == s1[i + 1]);
                assert(t1[j] == s1[j + 1]);
            }
        }
        lemma_sorted_unique_listing_equal(t1, t2);
        assert forall|i: int| 0 <= i < s1.len() implies s1[i] == s2[i] by {
            if i > 0 {
                assert(s1[i] == t1[i - 1]);
                assert(s2[i] == t2[i - 1]);
            }
        }
        assert(s1 =~= s2);
    }
}

/// Deleting the newest listed entry of a store with unique identifiers
/// leaves a store whose fresh listing is exactly the old one with its first
/// position gone: one entry shorter, the deleted identifier absent, every
/// other identifier kept in its order.
pub proof fn lemma_delete_newest_shrinks(
    m: Seq<(Seq<char>, Seq<u8>)>,
    cache: Seq<Seq<char>>,
    cache2: Seq<Seq<char>>,
)
    requires
        forall|i: int, j: int| 0 <= i < j < m.len() ==> (#[trigger] m[i]).0 != (#[trigger] m[j]).0,
        sorted_desc(cache),
        cache.to_multiset() == ids_of(m).to_multiset(),
        cache.len() > 0,
        sorted_desc(cache2),
        cache2.to_multiset() == ids_of(m.remove(id_index(m, cache[0]))).to_multiset(),
    ensures
        has_id(m, cache[0]),
        cache2.len() == cache.len() - 1,
        !cache2.contains(cache[0]),
        cache2 == cache.skip(1),
{
    let id = cache[0];
    let ids = ids_of(m);
    cache.to_multiset_ensures();
    ids.to_multiset_ensures();
    cache2.to_multiset_ensures();
    assert(cache.contains(id));
    assert(ids.to_multiset().count(id) > 0);
    assert(ids.contains(id));
    lemma_has_id_iff_contains(m, id);
    let k = id_index(m, id);
    lemma_id_index_props(m, id);
    assert(ids[k] == id);
    assert(ids_of(m.remove(k)) =~= ids.remove(k));
    assert(ids.remove(k).to_multiset() == ids.to_multiset().remove(ids[k]));
    assert(cache2.len() == cache2.to_multiset().len());
    assert(cache2.len() == cache.len() - 1);
    assert(ids.no_duplicates()) by {
        assert forall|i: int, j: int| 0 <= i < ids.len() && 0 <= j < ids.len() && i != j implies ids[i]
            != ids[j] by {
            if i < j {
                assert(m[i].0 != m[j].0);
            } else {
                assert(m[j].0 != m[i].0);
            }
        }
    }
    ids.lemma_multiset_has_no_duplicates();
    assert(ids.to_multiset().count(id) == 1);
    assert(cache2.to_multiset().count(id) == 0);
    assert(!cache2.contains(id));
    assert(cache.no_duplicates()) by {
        cache.lemma_multiset_has_no_duplicates_conv();
    }
    let tail = cache.skip(1);
    assert(tail =~= cache.remove(0));
    assert(tail.to_multiset() == cache.to_multiset().remove(cache[0]));
    assert(tail.to_multiset() == cache2.to_multiset());
    assert(sorted_desc(tail)) by {
        assert forall|x: int, y: int| 0 <= x <= y < tail.len() implies !lex_lt(
            tail[x],
            tail[y],
        ) by {
            assert(tail[x] == cache[x + 1]);
            assert(tail[y] == cache[y + 1]);
        }
    }
    assert(tail.no_duplicates()) by {
        assert forall|x: int, y: int|
            0 <= x < tail.len() && 0 <= y < tail.len() && x != y implies tail[x] != tail[y] by {
            assert(tail[x] == cache[x + 1]);
            assert(tail[y] == cache[y + 1]);
        }
    }
    lemma_sorted_unique_listing_equal(tail, cache2);
}

} // verus!
