use vstd::prelude::*;
use crate::text::push_char;

verus! {

/// Whether a stored clip is an original video or a trimmed cut.
#[derive(Debug, Clone, Copy, PartialEq, Eq, Structural)]
pub enum MediaKind {
    Original,
    Trimmed,
}

impl MediaKind {
    /// Display text of the kind.
    pub fn label(&self) -> (r: &'static str)
        ensures
            *self == MediaKind::Original ==> r@ == "Original"@,
            *self == MediaKind::Trimmed ==> r@ == "Trimmed"@,
    {
        match self {
            MediaKind::Original => "Original",
            MediaKind::Trimmed => "Trimmed",
        }
    }
}

/// ASCII letters and digits.
pub open spec fn is_ascii_alnum(c: char) -> bool {
    ('0' <= c <= '9') || ('a' <= c <= 'z') || ('A' <= c <= 'Z')
}

/// A file-name character: letters and digits stay, anything else becomes a dash.
pub open spec fn file_char(c: char) -> char {
    if is_ascii_alnum(c) { c } else { '-' }
}

/// ASCII lower case of a character.
pub open spec fn ascii_lower(c: char) -> char {
    if 'A' <= c <= 'Z' { ((c as u32) + 32) as char } else { c }
}

/// Position of the first character of `s` that is not a dash (the length when none).
pub open spec fn first_non_dash(s: Seq<char>) -> int
    decreases s.len(),
{
    if s.len() == 0 || s[0] != '-' { 0 } else { 1 + first_non_dash(s.drop_first()) }
}

/// One past the last character of `s` that is not a dash (0 when none).
pub open spec fn end_non_dash(s: Seq<char>) -> int
    decreases s.len(),
{
    if s.len() == 0 || s.last() != '-' { s.len() as int } else { end_non_dash(s.drop_last()) }
}

/// The file-name form of a title: every character that is not an ASCII
/// letter or digit replaced by a dash, leading and trailing dashes removed,
/// and letters in lower case.
pub open spec fn sanitized(name: Seq<char>) -> Seq<char> {
    let m = name.map_values(|c: char| file_char(c));
    let lo = first_non_dash(m);
    let hi = end_non_dash(m);
    if lo < hi { m.subrange(lo, hi).map_values(|c: char| ascii_lower(c)) } else { Seq::empty() }
}

proof fn lemma_first_non_dash(s: Seq<char>)
    ensures
        0 <= first_non_dash(s) <= s.len(),
        forall|i: int| 0 <= i < first_non_dash(s) ==> s[i] == '-',
        first_non_dash(s) < s.len() ==> s[first_non_dash(s)] != '-',
    decreases s.len(),
{
    if s.len() > 0 && s[0] == '-' {
        lemma_first_non_dash(s.drop_first());
        assert forall|i: int| 0 <= i < first_non_dash(s) implies s[i] == '-' by {
            if i > 0 {
                assert(s[i] == s.drop_first()[i - 1]);
            }
        }
    }
}

proof fn lemma_end_non_dash(s: Seq<char>)
    ensures
        0 <= end_non_dash(s) <= s.len(),
        forall|i: int| end_non_dash(s) <= i < s.len() ==> s[i] == '-',
        end_non_dash(s) > 0 ==> s[end_non_dash(s) - 1] != '-',
    decreases s.len(),
{
    if s.len() > 0 && s.last() == '-' {
        lemma_end_non_dash(s.drop_last());
        assert forall|i: int| end_non_dash(s) <= i < s.len() implies s[i] == '-' by {
            if i < s.len() - 1 {
                assert(s[i] == s.drop_last()[i]);
            }
        }
    }
}

/// A character of a sanitized name: an ASCII digit, a lower-case ASCII
/// letter or a dash.
pub open spec fn name_char(c: char) -> bool {
    ('0' <= c <= '9') || ('a' <= c <= 'z') || c == '-'
}

/// A sanitized name holds only digits, lower-case ASCII letters and dashes,
/// and neither starts nor ends with a dash.
pub proof fn lemma_sanitized_shape(name: Seq<char>)
    ensures
        forall|i: int| 0 <= i < sanitized(name).len() ==> name_char(#[trigger] sanitized(name)[i]),
        sanitized(name).len() > 0 ==> sanitized(name)[0] != '-' && sanitized(name).last() != '-',
{
    let m = name.map_values(|c: char| file_char(c));
    let lo = first_non_dash(m);
    let hi = end_non_dash(m);
    lemma_first_non_dash(m);
    lemma_end_non_dash(m);
    if lo < hi {
        let s = sanitized(name);
        assert forall|i: int| 0 <= i < s.len() implies name_char(#[trigger] s[i]) by {
            let c = m[lo + i];
            assert(c == file_char(name[lo + i]));
            assert(s[i] == ascii_lower(c));
        }
        assert(s[0] == ascii_lower(m[lo]));
        assert(s.last() == ascii_lower(m[hi - 1]));
    }
}

/// A title that starts and ends with an ASCII letter or digit keeps its
/// length when sanitized: each letter or digit stays in place (upper-case
/// letters lowered), and every other character becomes a dash.
pub proof fn lemma_sanitize_in_place(name: Seq<char>)
    requires
        name.len() > 0,
        is_ascii_alnum(name[0]),
        is_ascii_alnum(name.last()),
    ensures
        sanitized(name).len() == name.len(),
        forall|i: int| 0 <= i < name.len() ==> {
            let c = name[i];
            let o = #[trigger] sanitized(name)[i];
            &&& !is_ascii_alnum(c) ==> o == '-'
            &&& (('a' <= c <= 'z') || ('0' <= c <= '9')) ==> o == c
            &&& ('A' <= c <= 'Z') ==> o as u32 == c as u32 + 32
        },
{
    let m = name.map_values(|c: char| file_char(c));
    lemma_first_non_dash(m);
    lemma_end_non_dash(m);
    assert(m[0] != '-');
    assert(first_non_dash(m) == 0);
    assert(m[m.len() - 1] != '-');
    assert(end_non_dash(m) == m.len()) by {
        if end_non_dash(m) < m.len() {
            assert(m[m.len() - 1] == '-');
        }
    }
    let out = sanitized(name);
    assert forall|i: int| 0 <= i < name.len() implies {
        let c = name[i];
        let o = #[trigger] sanitized(name)[i];
        &&& !is_ascii_alnum(c) ==> o == '-'
        &&& (('a' <= c <= 'z') || ('0' <= c <= '9')) ==> o == c
        &&& ('A' <= c <= 'Z') ==> o as u32 == c as u32 + 32
    } by {
        assert(out[i] == ascii_lower(m[i]));
        assert(m[i] == file_char(name[i]));
        let c = name[i];
        if 'A' <= c <= 'Z' {
            assert(((c as u32) + 32) as char as u32 == (c as u32) + 32);
        }
    }
}

/// Sanitizing a name that is already sanitized changes nothing.
pub proof fn lemma_sanitize_idempotent(name: Seq<char>)
    ensures
        sanitized(sanitized(name)) == sanitized(name),
{
    let s = sanitized(name);
    lemma_sanitized_shape(name);
    let m = s.map_values(|c: char| file_char(c));
    assert(m =~= s) by {
        assert forall|i: int| 0 <= i < s.len() implies #[trigger] m[i] == s[i] by {
            assert(name_char(s[i]));
        }
    }
    if s.len() > 0 {
        assert(first_non_dash(m) == 0);
        assert(end_non_dash(m) == s.len());
        assert(m.subrange(0, s.len() as int) =~= s);
        assert(s.map_values(|c: char| ascii_lower(c)) =~= s) by {
            assert forall|i: int| 0 <= i < s.len() implies #[trigger] ascii_lower(s[i]) == s[i] by {
                assert(name_char(s[i]));
            }
        }
    } else {
        assert(first_non_dash(m) == 0);
        assert(end_non_dash(m) == 0);
    }
}

/// Turns a clip title into a safe file-name stem.
pub fn sanitize_file_name(name: &str) -> (r: String)
    ensures
        r@ == sanitized(name@),
{
    let n = name.unicode_len();
    let ghost m = name@.map_values(|c: char| file_char(c));
    let mut mapped: Vec<char> = Vec::new();
    let mut i: usize = 0;
    while i < n
        invariant
            i <= n,
            n == name@.len(),
            m == name@.map_values(|c: char| file_char(c)),
            mapped@ == m.take(i as int),
        decreases n - i,
    {
        let c = name.get_char(i);
        let is_alnum = ('0' <= c && c <= '9') || ('a' <= c && c <= 'z') || ('A' <= c && c <= 'Z');
        mapped.push(if is_alnum { c } else { '-' });
        assert(mapped@ =~= m.take(i + 1));
        i = i + 1;
    }
    assert(mapped@ =~= m);
    proof {
        lemma_first_non_dash(m);
        lemma_end_non_dash(m);
    }
    let mut lo: usize = 0;
    while lo < mapped.len() && mapped[lo] == '-'
        invariant
            lo <= mapped@.len(),
            mapped@ == m,
            lo <= first_non_dash(m),
        decreases mapped.len() - lo,
    {
        proof { lemma_first_non_dash(m); }
        lo = lo + 1;
    }
    let mut hi: usize = mapped.len();
    while hi > 0 && mapped[hi - 1] == '-'
        invariant
            hi <= mapped@.len(),
            mapped@ == m,
            end_non_dash(m) <= hi,
        decreases hi,
    {
        proof { lemma_end_non_dash(m); }
        hi = hi - 1;
    }
    proof {
        lemma_first_non_dash(m);
        lemma_end_non_dash(m);
    }
    assert(lo == first_non_dash(m) || lo == m.len());
    let mut out = String::new();
    if lo < hi {
        assert(lo == first_non_dash(m));
        assert(hi == end_non_dash(m));
        let ghost target = m.subrange(lo as int, hi as int).map_values(|c: char| ascii_lower(c));
        let mut k: usize = lo;
        while k < hi
            invariant
                lo <= k <= hi,
                hi <= mapped@.len(),
                mapped@ == m,
                target == m.subrange(lo as int, hi as int).map_values(|c: char| ascii_lower(c)),
                out@ == target.take(k - lo),
            decreases hi - k,
        {
            let c = mapped[k];
            let lc = if 'A' <= c && c <= 'Z' { ((c as u8) + 32) as char } else { c };
            proof {
                if 'A' <= c && c <= 'Z' {
                    assert(((c as u8) + 32) as char == ((c as u32) + 32) as char);
                }
            }
            push_char(&mut out, lc);
            assert(out@ =~= target.take(k + 1 - lo));
            k = k + 1;
        }
        assert(out@ =~= target);
    } else {
        proof {
            if first_non_dash(m) < end_non_dash(m) {
                assert(lo == first_non_dash(m));
            }
        }
    }
    out
}


/// An entry of the media library. `created_at` is the creation instant as
/// whole seconds since the Unix epoch and the nanoseconds within that second;
/// `details` is what the library stores with the entry without reading it
/// (title, source, duration, notes).
pub struct LibraryItem<D> {
    pub id: String,
    pub kind: MediaKind,
    pub file_path: String,
    pub created_at: (i64, u32),
    pub details: D,
}

/// The library's index of entries, newest first.
pub struct LibraryDb<D> {
    pub items: Vec<LibraryItem<D>>,
}

/// Instant `a` comes strictly before instant `b`.
pub open spec fn older(a: (i64, u32), b: (i64, u32)) -> bool {
    a.0 < b.0 || (a.0 == b.0 && a.1 < b.1)
}

/// Entries ordered from the newest to the oldest.
pub open spec fn newest_first<D>(s: Seq<LibraryItem<D>>) -> bool {
    forall|i: int, j: int| 0 <= i < j < s.len() ==> !older(s[i].created_at, s[j].created_at)
}

/// Selects the entries created at instant `t`.
pub open spec fn created_at_is<D>(t: (i64, u32)) -> spec_fn(LibraryItem<D>) -> bool {
    |e: LibraryItem<D>| e.created_at == t
}

/// Selects the entries whose id is not `id`.
pub open spec fn other_id<D>(id: Seq<char>) -> spec_fn(LibraryItem<D>) -> bool {
    |e: LibraryItem<D>| e.id@ != id
}

/// `out` is the stable sort of `inp`, newest first: ordered by creation
/// instant, and the entries sharing an instant keep their relative order.
pub open spec fn is_stable_newest_first<D>(out: Seq<LibraryItem<D>>, inp: Seq<LibraryItem<D>>) -> bool {
    &&& newest_first(out)
    &&& forall|t: (i64, u32)| #[trigger] out.filter(created_at_is::<D>(t)) == inp.filter(created_at_is::<D>(t))
}

/// What an upsert sorts: the entries whose id differs from the new entry's,
/// followed by the new entry.
pub open spec fn upsert_input<D>(items: Seq<LibraryItem<D>>, item: LibraryItem<D>) -> Seq<LibraryItem<D>> {
    items.filter(other_id::<D>(item.id@)).push(item)
}

proof fn lemma_filter_none_at<D>(s: Seq<LibraryItem<D>>, t: (i64, u32))
    requires
        forall|i: int| 0 <= i < s.len() ==> s[i].created_at != t,
    ensures
        s.filter(created_at_is::<D>(t)) == Seq::<LibraryItem<D>>::empty(),
{
    assert(s.all(|x: LibraryItem<D>| !created_at_is::<D>(t)(x)));
    s.lemma_all_neg_filter_empty(created_at_is::<D>(t));
}

proof fn lemma_insert_keeps_instants<D>(out: Seq<LibraryItem<D>>, k: int, x: LibraryItem<D>, t: (i64, u32))
    requires
        0 <= k <= out.len(),
        forall|i: int| k <= i < out.len() ==> older(out[i].created_at, x.created_at),
    ensures
        out.insert(k, x).filter(created_at_is::<D>(t)) == if t == x.created_at {
            out.filter(created_at_is::<D>(t)).push(x)
        } else {
            out.filter(created_at_is::<D>(t))
        },
{
    let a = out.take(k);
    let b = out.skip(k);
    assert(out =~= a + b);
    assert(out.insert(k, x) =~= a.push(x) + b);
    Seq::filter_distributes_over_add(a, b, created_at_is::<D>(t));
    Seq::filter_distributes_over_add(a.push(x), b, created_at_is::<D>(t));
    a.lemma_filter_push(x, created_at_is::<D>(t));
    if t == x.created_at {
        lemma_filter_none_at(b, t);
        assert(out.filter(created_at_is::<D>(t)) =~= a.filter(created_at_is::<D>(t)));
        assert(out.insert(k, x).filter(created_at_is::<D>(t)) =~= a.filter(created_at_is::<D>(t)).push(x));
    } else {
        assert(out.insert(k, x).filter(created_at_is::<D>(t)) =~= a.filter(created_at_is::<D>(t)) + b.filter(created_at_is::<D>(t)));
    }
}

/// Moves the entries of `inp` into a new vector, sorted newest first, keeping
/// the relative order of entries created at the same instant.
fn sort_newest_first<D>(inp: Vec<LibraryItem<D>>) -> (out: Vec<LibraryItem<D>>)
    ensures
        is_stable_newest_first(out@, inp@),
        out@.to_multiset() == inp@.to_multiset(),
{
    broadcast use vstd::seq_lib::group_to_multiset_ensures;
    let ghost orig = inp@;
    let mut pending = inp;
    let mut out: Vec<LibraryItem<D>> = Vec::new();
    let mut taken: usize = 0;
    assert(orig.len() == pending.len());
    while pending.len() > 0
        invariant
            orig.len() <= usize::MAX,
            taken + pending@.len() == orig.len(),
            pending@ == orig.skip(taken as int),
            newest_first(out@),
            forall|t: (i64, u32)| #[trigger] out@.filter(created_at_is::<D>(t)) == orig.take(taken as int).filter(created_at_is::<D>(t)),
            out@.to_multiset() == orig.take(taken as int).to_multiset(),
        decreases pending.len(),
    {
        let x = pending.remove(0);
        assert(x == orig[taken as int]);
        let mut k: usize = out.len();
        while k > 0 && (out[k - 1].created_at.0 < x.created_at.0
            || (out[k - 1].created_at.0 == x.created_at.0 && out[k - 1].created_at.1 < x.created_at.1))
            invariant
                0 <= k <= out.len(),
                newest_first(out@),
                forall|j: int| k <= j < out.len() ==> older(out@[j].created_at, x.created_at),
            decreases k,
        {
            k = k - 1;
        }
        let ghost old_out = out@;
        proof {
            assert(orig.take(taken + 1) =~= orig.take(taken as int).push(x));
            assert forall|t: (i64, u32)| #[trigger] old_out.insert(k as int, x).filter(created_at_is::<D>(t))
                == orig.take(taken + 1).filter(created_at_is::<D>(t)) by {
                lemma_insert_keeps_instants(old_out, k as int, x, t);
                orig.take(taken as int).lemma_filter_push(x, created_at_is::<D>(t));
            }
            vstd::seq_lib::to_multiset_insert(old_out, k as int, x);
            vstd::seq_lib::to_multiset_build(orig.take(taken as int), x);
        }
        out.insert(k, x);
        assert(out@ == old_out.insert(k as int, x));
        proof {
            assert forall|a: int, b: int| 0 <= a < b < out@.len() implies !older(out@[a].created_at, out@[b].created_at) by {
                if b < k {
                    assert(out@[a] == old_out[a] && out@[b] == old_out[b]);
                } else if b == k {
                    assert(out@[a] == old_out[a]);
                    if k > 0 {
                        assert(!older(old_out[a].created_at, old_out[k - 1].created_at));
                    }
                } else if a < k {
                    assert(out@[a] == old_out[a] && out@[b] == old_out[b - 1]);
                } else if a == k {
                    assert(out@[b] == old_out[b - 1]);
                } else {
                    assert(out@[a] == old_out[a - 1] && out@[b] == old_out[b - 1]);
                }
            }
        }
        taken = taken + 1;
    }
    assert(orig.take(orig.len() as int) =~= orig);
    out
}

/// Name for what `std::path::Path`'s equality gives on two path strings. Std
/// compares paths component by component (repeated separators and `.`
/// components are ignored); which characters separate components and what a
/// prefix is are fixed by the platform the program is built for, and nothing
/// else enters the comparison.
pub uninterp spec fn same_path(a: Seq<char>, b: Seq<char>) -> bool;

/// Compares two file paths with `std::path::Path`'s equality: the result is
/// `same_path` of the two strings, and identical strings always name the same
/// path (they split into the same components).
#[verifier::external_body]
fn paths_equal(a: &str, b: &str) -> (r: bool)
    ensures
        r == same_path(a@, b@),
        a@ == b@ ==> r,
{
    std::path::Path::new(a) == std::path::Path::new(b)
}

/// Entry `i` is an original whose path compared equal.
pub open spec fn original_match(kinds: Seq<MediaKind>, same: Seq<bool>, i: int) -> bool {
    kinds[i] == MediaKind::Original && same[i]
}

/// `r` is the first position holding an original whose path compared equal,
/// or `None` when there is none.
pub open spec fn selects_first_match(kinds: Seq<MediaKind>, same: Seq<bool>, r: Option<usize>) -> bool {
    match r {
        Some(i) => i < kinds.len() && original_match(kinds, same, i as int)
            && forall|j: int| 0 <= j < i ==> !#[trigger] original_match(kinds, same, j),
        None => forall|j: int| 0 <= j < kinds.len() ==> !#[trigger] original_match(kinds, same, j),
    }
}

/// The first position holding an original whose path compared equal
/// (`same_path[i]` is the outcome of comparing entry `i`'s path).
pub fn first_matching_original(kinds: &Vec<MediaKind>, same_path: &Vec<bool>) -> (r: Option<usize>)
    requires
        kinds@.len() == same_path@.len(),
    ensures
        selects_first_match(kinds@, same_path@, r),
{
    let mut i: usize = 0;
    while i < kinds.len()
        invariant
            i <= kinds@.len(),
            kinds@.len() == same_path@.len(),
            forall|j: int| 0 <= j < i ==> !#[trigger] original_match(kinds@, same_path@, j),
        decreases kinds.len() - i,
    {
        if kinds[i] == MediaKind::Original && same_path[i] {
            return Some(i);
        }
        i = i + 1;
    }
    None
}

/// The kinds of the entries, in order.
pub open spec fn kinds_of<D>(items: Seq<LibraryItem<D>>) -> Seq<MediaKind> {
    Seq::new(items.len(), |j: int| items[j].kind)
}

/// The outcomes of comparing each entry's path with `path`, in order.
pub open spec fn path_matches<D>(items: Seq<LibraryItem<D>>, path: Seq<char>) -> Seq<bool> {
    Seq::new(items.len(), |j: int| same_path(items[j].file_path@, path))
}

/// `r` is the lookup of the original stored under `path`: the first original
/// whose path equals `path` as `Path` compares them; an original whose path
/// string is exactly `path` is always found, so no original before the result
/// has exactly that string.
pub open spec fn finds_original<D>(items: Seq<LibraryItem<D>>, path: Seq<char>, r: Option<usize>) -> bool {
    &&& selects_first_match(kinds_of(items), path_matches(items, path), r)
    &&& match r {
        Some(i) => forall|j: int| 0 <= j < i && items[j].kind == MediaKind::Original
            ==> #[trigger] items[j].file_path@ != path,
        None => forall|j: int| 0 <= j < items.len() && items[j].kind == MediaKind::Original
            ==> #[trigger] items[j].file_path@ != path,
    }
}

/// `after` and `r` are what registering an existing file `path` with the
/// fresh entry `item` gives on `before`: when an original is stored under
/// `path` (as `Path` compares), its position and an unchanged index;
/// otherwise `None` and the index with `item` upserted.
pub open spec fn registered<D>(
    before: Seq<LibraryItem<D>>,
    path: Seq<char>,
    item: LibraryItem<D>,
    r: Option<usize>,
    after: Seq<LibraryItem<D>>,
) -> bool {
    &&& finds_original(before, path, r)
    &&& r is Some ==> after == before
    &&& r is None ==> {
        &&& is_stable_newest_first(after, upsert_input(before, item))
        &&& after.to_multiset() == upsert_input(before, item).to_multiset()
    }
}

impl<D> LibraryDb<D> {
    /// Position of the first original video stored under `path`, paths
    /// compared as `std::path::Path` compares them; an entry whose path string
    /// is exactly `path` is always found.
    pub fn find_original(&self, path: &str) -> (r: Option<usize>)
        ensures
            finds_original(self.items@, path@, r),
    {
        let mut kinds: Vec<MediaKind> = Vec::new();
        let mut same: Vec<bool> = Vec::new();
        let mut i: usize = 0;
        while i < self.items.len()
            invariant
                i <= self.items@.len(),
                kinds@.len() == i,
                same@.len() == i,
                forall|j: int| 0 <= j < i ==> #[trigger] kinds@[j] == self.items@[j].kind,
                forall|j: int| 0 <= j < i ==> #[trigger] same@[j] == same_path(self.items@[j].file_path@, path@),
                forall|j: int| 0 <= j < i && self.items@[j].file_path@ == path@ ==> #[trigger] same@[j],
            decreases self.items.len() - i,
        {
            let e = &self.items[i];
            kinds.push(e.kind);
            same.push(paths_equal(e.file_path.as_str(), path));
            i = i + 1;
        }
        assert(kinds@ =~= kinds_of(self.items@));
        assert(same@ =~= path_matches(self.items@, path@));
        let r = first_matching_original(&kinds, &same);
        proof {
            match r {
                Some(k) => {
                    assert forall|j: int| 0 <= j < k && self.items@[j].kind == MediaKind::Original
                        implies #[trigger] self.items@[j].file_path@ != path@ by {
                        assert(!original_match(kinds@, same@, j));
                    }
                },
                None => {
                    assert forall|j: int| 0 <= j < self.items@.len() && self.items@[j].kind == MediaKind::Original
                        implies #[trigger] self.items@[j].file_path@ != path@ by {
                        assert(!original_match(kinds@, same@, j));
                    }
                },
            }
        }
        r
    }

    /// Registers an existing file as an original: when an original is stored
    /// under `path` (as `Path` compares), returns its position and changes
    /// nothing; otherwise upserts `item` and returns `None`.
    pub fn register_original(&mut self, path: &str, item: LibraryItem<D>) -> (r: Option<usize>)
        ensures
            registered(old(self).items@, path@, item, r, final(self).items@),
    {
        match self.find_original(path) {
            Some(i) => Some(i),
            None => {
                self.upsert_item(item);
                None
            },
        }
    }

    /// An empty library index.
    pub fn new() -> (r: Self)
        ensures
            r.items@ == Seq::<LibraryItem<D>>::empty(),
    {
        LibraryDb { items: Vec::new() }
    }

    /// The entries, newest first.
    pub fn items(&self) -> (r: &Vec<LibraryItem<D>>)
        ensures
            r@ == self.items@,
    {
        &self.items
    }

    /// Stores `item`, replacing every entry with the same id, and orders the
    /// index newest first (entries created at the same instant keep their
    /// relative order).
    pub fn upsert_item(&mut self, item: LibraryItem<D>)
        ensures
            is_stable_newest_first(final(self).items@, upsert_input(old(self).items@, item)),
            final(self).items@.to_multiset() == upsert_input(old(self).items@, item).to_multiset(),
    {
        let ghost orig = self.items@;
        let mut pending: Vec<LibraryItem<D>> = Vec::new();
        std::mem::swap(&mut pending, &mut self.items);
        let mut kept: Vec<LibraryItem<D>> = Vec::new();
        let mut taken: usize = 0;
        assert(orig.len() == pending.len());
        while pending.len() > 0
            invariant
                orig.len() <= usize::MAX,
                taken + pending@.len() == orig.len(),
                pending@ == orig.skip(taken as int),
                kept@ == orig.take(taken as int).filter(other_id::<D>(item.id@)),
            decreases pending.len(),
        {
            let x = pending.remove(0);
            assert(x == orig[taken as int]);
            proof {
                assert(orig.take(taken + 1) =~= orig.take(taken as int).push(x));
                orig.take(taken as int).lemma_filter_push(x, other_id::<D>(item.id@));
            }
            if !(x.id == item.id) {
                kept.push(x);
            }
            taken = taken + 1;
        }
        assert(orig.take(orig.len() as int) =~= orig);
        kept.push(item);
        self.items = sort_newest_first(kept);
    }
}


proof fn lemma_filter_some_at<D>(s: Seq<LibraryItem<D>>, t: (i64, u32)) -> (i: int)
    requires
        s.filter(created_at_is::<D>(t)).len() > 0,
    ensures
        0 <= i < s.len(),
        s[i].created_at == t,
{
    let f = s.filter(created_at_is::<D>(t));
    assert(created_at_is::<D>(t)(f[0]));
    assert(s.contains(f[0])) by {
        s.lemma_filter_contains_rev(created_at_is::<D>(t), f[0]);
    }
    let i = choose|i: int| 0 <= i < s.len() && s[i] == f[0];
    i
}

/// Two newest-first sequences with the same entries per creation instant, in
/// the same relative order, are equal: the index an upsert leaves behind is
/// fixed by the entries it holds.
pub proof fn lemma_newest_first_unique<D>(a: Seq<LibraryItem<D>>, b: Seq<LibraryItem<D>>)
    requires
        newest_first(a),
        newest_first(b),
        forall|t: (i64, u32)| #[trigger] a.filter(created_at_is::<D>(t)) == b.filter(created_at_is::<D>(t)),
    ensures
        a == b,
    decreases a.len() + b.len(),
{
    broadcast use vstd::seq_lib::group_filter_ensures;
    if a.len() == 0 && b.len() == 0 {
        assert(a =~= b);
    } else if a.len() == 0 {
        b.lemma_filter_contains(created_at_is::<D>(b[0].created_at), 0);
        assert(a.filter(created_at_is::<D>(b[0].created_at)) == b.filter(created_at_is::<D>(b[0].created_at)));
        lemma_filter_none_at(a, b[0].created_at);
    } else if b.len() == 0 {
        a.lemma_filter_contains(created_at_is::<D>(a[0].created_at), 0);
        assert(a.filter(created_at_is::<D>(a[0].created_at)) == b.filter(created_at_is::<D>(a[0].created_at)));
        lemma_filter_none_at(b, a[0].created_at);
    } else {
        let x = a.last();
        let y = b.last();
        let k = x.created_at;
        let kk = y.created_at;
        assert(a =~= a.drop_last().push(x));
        assert(b =~= b.drop_last().push(y));
        a.drop_last().lemma_filter_push(x, created_at_is::<D>(k));
        b.drop_last().lemma_filter_push(y, created_at_is::<D>(kk));
        assert(a.filter(created_at_is::<D>(kk)) == b.filter(created_at_is::<D>(kk)));
        let ia = lemma_filter_some_at(a, kk);
        if ia < a.len() - 1 {
            assert(!older(a[ia].created_at, a[a.len() - 1].created_at));
        }
        assert(a.filter(created_at_is::<D>(k)) == b.filter(created_at_is::<D>(k)));
        let ib = lemma_filter_some_at(b, k);
        if ib < b.len() - 1 {
            assert(!older(b[ib].created_at, b[b.len() - 1].created_at));
        }
        assert(k == kk);
        assert(x == y) by {
            assert(a.filter(created_at_is::<D>(k)).last() == x);
            assert(b.filter(created_at_is::<D>(k)).last() == y);
        }
        assert forall|t: (i64, u32)| #[trigger] a.drop_last().filter(created_at_is::<D>(t)) == b.drop_last().filter(created_at_is::<D>(t)) by {
            a.drop_last().lemma_filter_push(x, created_at_is::<D>(t));
            b.drop_last().lemma_filter_push(y, created_at_is::<D>(t));
            assert(a.filter(created_at_is::<D>(t)) == b.filter(created_at_is::<D>(t)));
            if t == k {
                assert(a.drop_last().filter(created_at_is::<D>(t)) =~= a.filter(created_at_is::<D>(t)).drop_last());
                assert(b.drop_last().filter(created_at_is::<D>(t)) =~= b.filter(created_at_is::<D>(t)).drop_last());
            }
        }
        lemma_newest_first_unique(a.drop_last(), b.drop_last());
        assert(a =~= b);
    }
}

/// After an upsert the index holds the new entry exactly once, no other entry
/// with its id, and every earlier entry with another id.
pub proof fn lemma_upsert_replaces_by_id<D>(
    before: Seq<LibraryItem<D>>,
    after: Seq<LibraryItem<D>>,
    item: LibraryItem<D>,
)
    requires
        after.to_multiset() == upsert_input(before, item).to_multiset(),
    ensures
        after.to_multiset().count(item) == 1,
        forall|i: int| 0 <= i < after.len() && #[trigger] after[i].id@ == item.id@ ==> after[i] == item,
        forall|e: LibraryItem<D>| before.contains(e) && e.id@ != item.id@ ==> #[trigger] after.contains(e),
{
    broadcast use vstd::seq_lib::group_to_multiset_ensures;
    broadcast use vstd::seq_lib::group_filter_ensures;
    let f = before.filter(other_id::<D>(item.id@));
    assert(!f.contains(item)) by {
        if f.contains(item) {
            let j = choose|j: int| 0 <= j < f.len() && f[j] == item;
            assert(other_id::<D>(item.id@)(f[j]));
        }
    }
    vstd::seq_lib::to_multiset_build(f, item);
    assert forall|i: int| 0 <= i < after.len() && #[trigger] after[i].id@ == item.id@ implies after[i] == item by {
        let e = after[i];
        assert(after.contains(e));
        vstd::seq_lib::to_multiset_contains(after, e);
        vstd::seq_lib::to_multiset_contains(upsert_input(before, item), e);
        assert(upsert_input(before, item).contains(e));
        let j = choose|j: int| 0 <= j < f.len() + 1 && upsert_input(before, item)[j] == e;
        if j < f.len() {
            assert(other_id::<D>(item.id@)(f[j]));
        }
    }
    assert forall|e: LibraryItem<D>| before.contains(e) && e.id@ != item.id@ implies #[trigger] after.contains(e) by {
        let j = choose|j: int| 0 <= j < before.len() && before[j] == e;
        assert(other_id::<D>(item.id@)(before[j]));
        assert(f.contains(e));
        let k = choose|k: int| 0 <= k < f.len() && f[k] == e;
        assert(upsert_input(before, item)[k] == e);
        assert(upsert_input(before, item).contains(e));
        vstd::seq_lib::to_multiset_contains(after, e);
        vstd::seq_lib::to_multiset_contains(upsert_input(before, item), e);
    }
}

proof fn lemma_first_match_unique(kinds: Seq<MediaKind>, same: Seq<bool>, r1: Option<usize>, r2: Option<usize>)
    requires
        selects_first_match(kinds, same, r1),
        selects_first_match(kinds, same, r2),
    ensures
        r1 == r2,
{
    match (r1, r2) {
        (Some(a), Some(b)) => {
            if a < b {
                assert(!original_match(kinds, same, a as int));
            }
            if b < a {
                assert(!original_match(kinds, same, b as int));
            }
        },
        (Some(a), None) => {
            assert(!original_match(kinds, same, a as int));
        },
        (None, Some(b)) => {
            assert(!original_match(kinds, same, b as int));
        },
        (None, None) => {},
    }
}

/// Registering the same existing file twice gives back the same entry and
/// adds nothing the second time: when the first registration found an
/// original, the second finds that same position; when it added `item`, the
/// second finds `item`; either way the index is left unchanged.
pub proof fn lemma_register_twice<D>(
    l0: Seq<LibraryItem<D>>,
    l1: Seq<LibraryItem<D>>,
    l2: Seq<LibraryItem<D>>,
    path: Seq<char>,
    item1: LibraryItem<D>,
    item2: LibraryItem<D>,
    r1: Option<usize>,
    r2: Option<usize>,
)
    requires
        item1.kind == MediaKind::Original,
        item1.file_path@ == path,
        registered(l0, path, item1, r1, l1),
        registered(l1, path, item2, r2, l2),
    ensures
        r2 is Some,
        l2 == l1,
        r1 is Some ==> r2 == r1,
        r1 is None ==> l1[r2->0 as int] == item1,
{
    broadcast use vstd::seq_lib::group_to_multiset_ensures;
    broadcast use vstd::seq_lib::group_filter_ensures;
    match r1 {
        Some(a) => {
            lemma_first_match_unique(kinds_of(l0), path_matches(l0, path), r1, r2);
        },
        None => {
            lemma_upsert_replaces_by_id(l0, l1, item1);
            assert(l1.to_multiset().count(item1) == 1);
            assert(l1.contains(item1));
            let p = choose|p: int| 0 <= p < l1.len() && l1[p] == item1;
            if r2 is None {
                assert(l1[p].kind == MediaKind::Original);
                assert(l1[p].file_path@ != path);
            }
            let i = r2->0 as int;
            assert(original_match(kinds_of(l1), path_matches(l1, path), i));
            let e = l1[i];
            if e != item1 {
                assert(l1.contains(e));
                vstd::seq_lib::to_multiset_contains(l1, e);
                vstd::seq_lib::to_multiset_contains(upsert_input(l0, item1), e);
                let f = l0.filter(other_id::<D>(item1.id@));
                let j = choose|j: int| 0 <= j < f.len() + 1 && upsert_input(l0, item1)[j] == e;
                assert(j < f.len());
                assert(f.contains(e));
                l0.lemma_filter_contains_rev(other_id::<D>(item1.id@), e);
                let k = choose|k: int| 0 <= k < l0.len() && l0[k] == e;
                assert(kinds_of(l0)[k] == e.kind);
                assert(path_matches(l0, path)[k] == same_path(e.file_path@, path));
                assert(kinds_of(l1)[i] == e.kind);
                assert(path_matches(l1, path)[i] == same_path(e.file_path@, path));
                assert(!original_match(kinds_of(l0), path_matches(l0, path), k));
            }
        },
    }
}

} // verus!
