use vstd::prelude::*;
use crate::live_capture::{trim_spec, trim_str};
use crate::app_state::BrowserCookieSource;
use crate::text::push_str;

verus! {

/// std's `str::chars`, collected: the characters of a string slice.
#[verifier::external_body]
pub(crate) fn chars_of(s: &str) -> (r: Vec<char>)
    ensures
        r@ == s@,
{
    s.chars().collect()
}

/// std's `String::from_iter` over characters: the string made of `v`.
#[verifier::external_body]
pub(crate) fn string_of_chars(v: &[char]) -> (r: String)
    ensures
        r@ == v@,
{
    v.iter().collect()
}

/// Name for what std's `str::to_lowercase` returns (Unicode lower-case mapping).
pub uninterp spec fn unicode_lowercase(s: Seq<char>) -> Seq<char>;

/// std's `str::to_lowercase`: the Unicode lower-case form of the text.
#[verifier::external_body]
fn lowercase(s: &str) -> (r: String)
    ensures
        r@ == unicode_lowercase(s@),
{
    s.to_lowercase()
}

/// `t` occurs in `s` at position `i`.
pub open spec fn occurs_at(s: Seq<char>, t: Seq<char>, i: int) -> bool {
    0 <= i && i + t.len() <= s.len() && s.subrange(i, i + t.len()) == t
}

/// `t` occurs somewhere in `s`.
pub open spec fn contains_text(s: Seq<char>, t: Seq<char>) -> bool {
    exists|i: int| occurs_at(s, t, i)
}

/// First position of `t` in `s` at or after `from`, if any.
pub open spec fn first_occurrence(s: Seq<char>, t: Seq<char>, from: int) -> Option<int>
    decreases s.len() + 1 - from,
{
    if from < 0 || from > s.len() {
        None
    } else if occurs_at(s, t, from) {
        Some(from)
    } else {
        first_occurrence(s, t, from + 1)
    }
}

proof fn lemma_first_occurrence_bounds(s: Seq<char>, t: Seq<char>, from: int)
    requires
        first_occurrence(s, t, from) is Some,
    ensures
        ({
            let i = first_occurrence(s, t, from)->0;
            &&& from <= i <= s.len() && occurs_at(s, t, i)
            &&& forall|j: int| from <= j < i ==> !occurs_at(s, t, j)
        }),
    decreases s.len() + 1 - from,
{
    if from >= 0 && from <= s.len() && !occurs_at(s, t, from) {
        lemma_first_occurrence_bounds(s, t, from + 1);
    }
}

fn occurs_at_exec(s: &Vec<char>, t: &Vec<char>, i: usize) -> (r: bool)
    ensures
        r == occurs_at(s@, t@, i as int),
{
    if i > s.len() || t.len() > s.len() - i {
        return false;
    }
    let n = s.len();
    let mut k: usize = 0;
    while k < t.len()
        invariant
            n == s@.len(),
            k <= t@.len(),
            i + t@.len() <= s@.len(),
            forall|j: int| 0 <= j < k ==> s@[i + j] == t@[j],
        decreases t.len() - k,
    {
        assert(i + k < s@.len());
        if s[i + k] != t[k] {
            assert(s@.subrange(i as int, i + t@.len())[k as int] != t@[k as int]);
            return false;
        }
        k = k + 1;
    }
    assert(s@.subrange(i as int, i + t@.len()) =~= t@);
    true
}

/// First position of `t` in `s` at or after `from`.
fn find_text(s: &Vec<char>, t: &Vec<char>, from: usize) -> (r: Option<usize>)
    ensures
        r matches Some(i) ==> first_occurrence(s@, t@, from as int) == Some(i as int),
        r is None ==> first_occurrence(s@, t@, from as int) is None,
{
    if from > s.len() {
        return None;
    }
    let mut i: usize = from;
    loop
        invariant
            from <= i <= s@.len(),
            first_occurrence(s@, t@, from as int) == first_occurrence(s@, t@, i as int),
        decreases s.len() - i,
    {
        if occurs_at_exec(s, t, i) {
            return Some(i);
        }
        if i == s.len() {
            assert(first_occurrence(s@, t@, i + 1) is None);
            return None;
        }
        i = i + 1;
    }
}

/// A line without the `\r` that may precede its `\n`.
pub open spec fn strip_cr(l: Seq<char>) -> Seq<char> {
    if l.len() > 0 && l.last() == '\r' { l.drop_last() } else { l }
}

/// The lines of `s` from position `p` on: split at `\n`, a `\r` before the
/// `\n` dropped, no empty line after a final `\n`.
pub open spec fn lines_from(s: Seq<char>, p: int) -> Seq<Seq<char>>
    decreases s.len() - p,
{
    if p < 0 || p >= s.len() {
        Seq::empty()
    } else {
        match first_occurrence(s, seq!['\n'], p) {
            None => seq![s.subrange(p, s.len() as int)],
            Some(k) => if p <= k < s.len() {
                seq![strip_cr(s.subrange(p, k))] + lines_from(s, k + 1)
            } else {
                seq![strip_cr(s.subrange(p, k))]
            },
        }
    }
}

/// The lines of a text, as std's `str::lines` yields them.
pub open spec fn lines_of(s: Seq<char>) -> Seq<Seq<char>> {
    lines_from(s, 0)
}

/// The piece of `s` after the first occurrence of `sep` and before the next one.
pub open spec fn second_piece(s: Seq<char>, sep: Seq<char>) -> Option<Seq<char>> {
    match first_occurrence(s, sep, 0) {
        None => None,
        Some(a) => {
            let b = a + sep.len();
            match first_occurrence(s, sep, b) {
                None => Some(s.subrange(b, s.len() as int)),
                Some(c) => Some(s.subrange(b, c)),
            }
        },
    }
}

/// `s` with every leading copy of `p` removed.
pub open spec fn strip_prefixes(s: Seq<char>, p: Seq<char>) -> Seq<char>
    decreases s.len(),
{
    if p.len() > 0 && occurs_at(s, p, 0) { strip_prefixes(s.subrange(p.len() as int, s.len() as int), p) } else { s }
}

/// `s` with every trailing copy of `p` removed.
pub open spec fn strip_suffixes(s: Seq<char>, p: Seq<char>) -> Seq<char>
    decreases s.len(),
{
    if p.len() > 0 && p.len() <= s.len() && occurs_at(s, p, s.len() - p.len()) {
        strip_suffixes(s.subrange(0, s.len() - p.len()), p)
    } else {
        s
    }
}

/// The file a downloader output line names, if it names one: a destination
/// line, an already-downloaded line, or a merge line (path in quotes).
pub open spec fn line_path(l: Seq<char>) -> Option<Seq<char>> {
    if contains_text(l, "[download] Destination:"@) {
        match second_piece(l, "Destination:"@) {
            Some(p) => Some(trim_spec(p)),
            None => None,
        }
    } else if contains_text(l, "has already been downloaded"@) {
        Some(strip_suffixes(strip_prefixes(l, "[download] "@), " has already been downloaded"@))
    } else if contains_text(l, "[Merger] Merging formats into"@) {
        second_piece(l, seq!['"'])
    } else {
        None
    }
}

/// The file named by the last output line that names one.
pub open spec fn last_named_path(lines: Seq<Seq<char>>) -> Option<Seq<char>>
    decreases lines.len(),
{
    if lines.len() == 0 {
        None
    } else {
        match line_path(lines.last()) {
            Some(p) => Some(p),
            None => last_named_path(lines.drop_last()),
        }
    }
}

/// The text's lines as character vectors.
fn split_lines(s: &Vec<char>) -> (r: Vec<Vec<char>>)
    ensures
        r@.len() == lines_of(s@).len(),
        forall|i: int| 0 <= i < r@.len() ==> (#[trigger] r@[i])@ == lines_of(s@)[i],
{
    let nl: Vec<char> = vec!['\n'];
    assert(nl@ =~= seq!['\n']);
    let mut out: Vec<Vec<char>> = Vec::new();
    let mut p: usize = 0;
    let ghost done: Seq<Seq<char>> = Seq::empty();
    while p < s.len()
        invariant
            p <= s@.len(),
            nl@ == seq!['\n'],
            out@.len() == done.len(),
            forall|i: int| 0 <= i < out@.len() ==> (#[trigger] out@[i])@ == done[i],
            lines_of(s@) == done + lines_from(s@, p as int),
        decreases s.len() - p,
    {
        let k_opt = find_text(s, &nl, p);
        let end: usize = match k_opt { Some(k) => k, None => s.len() };
        proof {
            if k_opt is Some {
                lemma_first_occurrence_bounds(s@, nl@, p as int);
                assert(occurs_at(s@, nl@, end as int));
            }
        }
        let mut line: Vec<char> = Vec::new();
        let mut q: usize = p;
        while q < end
            invariant
                p <= q <= end <= s@.len(),
                line@ == s@.subrange(p as int, q as int),
            decreases end - q,
        {
            line.push(s[q]);
            assert(line@ =~= s@.subrange(p as int, q + 1));
            q = q + 1;
        }
        let ghost this_line = if k_opt is Some { strip_cr(s@.subrange(p as int, end as int)) } else { s@.subrange(p as int, s@.len() as int) };
        match k_opt {
            Some(_) => {
                if line.len() > 0 && line[line.len() - 1] == '\r' {
                    line.pop();
                    assert(line@ =~= strip_cr(s@.subrange(p as int, end as int)));
                }
            },
            None => {},
        }
        proof {
            assert(line@ == this_line);
            assert(lines_from(s@, p as int) == seq![this_line] + lines_from(s@, end + 1)) by {
                if k_opt is None {
                    assert(lines_from(s@, end + 1) =~= Seq::<Seq<char>>::empty());
                }
            }
            assert(done.push(this_line) + lines_from(s@, end + 1) =~= done + (seq![this_line] + lines_from(s@, end + 1)));
            done = done.push(this_line);
        }
        out.push(line);
        if end >= s.len() {
            p = s.len();
            proof {
                assert(lines_from(s@, end + 1) =~= Seq::<Seq<char>>::empty());
                assert(lines_from(s@, s@.len() as int) =~= Seq::<Seq<char>>::empty());
            }
        } else {
            p = end + 1;
        }
    }
    proof {
        assert(lines_from(s@, p as int) =~= Seq::<Seq<char>>::empty());
        assert(done + Seq::<Seq<char>>::empty() =~= done);
    }
    out
}

fn contains_exec(s: &Vec<char>, t: &Vec<char>) -> (r: bool)
    ensures
        r == contains_text(s@, t@),
{
    match find_text(s, t, 0) {
        Some(i) => {
            proof { lemma_first_occurrence_bounds(s@, t@, 0); }
            true
        },
        None => {
            proof { lemma_no_first_means_none(s@, t@, 0); }
            false
        },
    }
}

proof fn lemma_no_first_means_none(s: Seq<char>, t: Seq<char>, from: int)
    requires
        from >= 0,
        first_occurrence(s, t, from) is None,
    ensures
        forall|i: int| from <= i ==> !occurs_at(s, t, i),
    decreases s.len() + 1 - from,
{
    if from <= s.len() {
        lemma_no_first_means_none(s, t, from + 1);
    }
}

fn sub_vec(s: &Vec<char>, a: usize, b: usize) -> (r: Vec<char>)
    requires
        a <= b <= s@.len(),
    ensures
        r@ == s@.subrange(a as int, b as int),
{
    let mut out: Vec<char> = Vec::new();
    let mut q: usize = a;
    while q < b
        invariant
            a <= q <= b <= s@.len(),
            out@ == s@.subrange(a as int, q as int),
        decreases b - q,
    {
        out.push(s[q]);
        assert(out@ =~= s@.subrange(a as int, q + 1));
        q = q + 1;
    }
    out
}

fn second_piece_exec(s: &Vec<char>, sep: &Vec<char>) -> (r: Option<Vec<char>>)
    ensures
        second_piece(s@, sep@) is None <==> r is None,
        r matches Some(v) ==> second_piece(s@, sep@) == Some(v@),
{
    match find_text(s, sep, 0) {
        None => None,
        Some(a) => {
            proof { lemma_first_occurrence_bounds(s@, sep@, 0); }
            let n = s.len();
            assert(a + sep@.len() <= n);
            let b = a + sep.len();
            match find_text(s, sep, b) {
                None => Some(sub_vec(s, b, s.len())),
                Some(c) => {
                    proof { lemma_first_occurrence_bounds(s@, sep@, b as int); }
                    Some(sub_vec(s, b, c))
                },
            }
        },
    }
}

fn strip_prefixes_exec(s: &Vec<char>, p: &Vec<char>) -> (r: Vec<char>)
    ensures
        r@ == strip_prefixes(s@, p@),
{
    let mut cur: Vec<char> = sub_vec(s, 0, s.len());
    assert(cur@ =~= s@);
    if p.len() == 0 {
        return cur;
    }
    loop
        invariant
            p@.len() > 0,
            strip_prefixes(cur@, p@) == strip_prefixes(s@, p@),
        decreases cur@.len(),
    {
        if occurs_at_exec(&cur, p, 0) {
            let next = sub_vec(&cur, p.len(), cur.len());
            cur = next;
        } else {
            return cur;
        }
    }
}

fn strip_suffixes_exec(s: &Vec<char>, p: &Vec<char>) -> (r: Vec<char>)
    ensures
        r@ == strip_suffixes(s@, p@),
{
    let mut cur: Vec<char> = sub_vec(s, 0, s.len());
    assert(cur@ =~= s@);
    if p.len() == 0 {
        return cur;
    }
    loop
        invariant
            p@.len() > 0,
            strip_suffixes(cur@, p@) == strip_suffixes(s@, p@),
        decreases cur@.len(),
    {
        if p.len() <= cur.len() && occurs_at_exec(&cur, p, cur.len() - p.len()) {
            let next = sub_vec(&cur, 0, cur.len() - p.len());
            cur = next;
        } else {
            return cur;
        }
    }
}

/// The file named by one downloader output line, if it names one.
fn line_path_exec(l: &Vec<char>) -> (r: Option<Vec<char>>)
    ensures
        line_path(l@) is None <==> r is None,
        r matches Some(v) ==> line_path(l@) == Some(v@),
{
    let dest = chars_of("[download] Destination:");
    let already = chars_of("has already been downloaded");
    let merger = chars_of("[Merger] Merging formats into");
    if contains_exec(l, &dest) {
        let key = chars_of("Destination:");
        match second_piece_exec(l, &key) {
            Some(p) => {
                let ps = string_of_chars(p.as_slice());
                let t = trim_str(ps.as_str());
                Some(chars_of(t))
            },
            None => None,
        }
    } else if contains_exec(l, &already) {
        let pre = chars_of("[download] ");
        let suf = chars_of(" has already been downloaded");
        let a = strip_prefixes_exec(l, &pre);
        Some(strip_suffixes_exec(&a, &suf))
    } else if contains_exec(l, &merger) {
        let q: Vec<char> = vec!['"'];
        assert(q@ =~= seq!['"']);
        second_piece_exec(l, &q)
    } else {
        None
    }
}

/// The file the downloader reports in its standard output: from the last
/// line that names one, a destination line (the trimmed text after
/// "Destination:"), an already-downloaded line (without its "[download] "
/// prefixes and " has already been downloaded" suffixes), or a merge line
/// (the text after the first double quote, up to the next).
pub fn downloaded_path(stdout: &str) -> (r: Option<String>)
    ensures
        last_named_path(lines_of(stdout@)) is None <==> r is None,
        r matches Some(p) ==> last_named_path(lines_of(stdout@)) == Some(p@),
{
    let chars = chars_of(stdout);
    let lines = split_lines(&chars);
    let ghost ls = lines_of(stdout@);
    let mut i: usize = lines.len();
    assert(ls.take(i as int) =~= ls);
    while i > 0
        invariant
            i <= lines@.len(),
            lines@.len() == ls.len(),
            ls == lines_of(stdout@),
            forall|k: int| 0 <= k < lines@.len() ==> (#[trigger] lines@[k])@ == ls[k],
            last_named_path(ls) == last_named_path(ls.take(i as int)),
        decreases i,
    {
        proof {
            assert(ls.take(i as int).drop_last() =~= ls.take(i - 1));
            assert(ls.take(i as int).last() == ls[i - 1]);
        }
        match line_path_exec(&lines[i - 1]) {
            Some(p) => {
                return Some(string_of_chars(p.as_slice()));
            },
            None => {},
        }
        i = i - 1;
    }
    assert(ls.take(0) =~= Seq::<Seq<char>>::empty());
    None
}

/// Lower-cased error output asks for browser cookies: it mentions the bot
/// check, the cookie options, or authentication.
pub open spec fn lowered_asks_for_cookies(low: Seq<char>) -> bool {
    contains_text(low, "sign in to confirm you're not a bot"@)
        || contains_text(low, "--cookies-from-browser"@)
        || contains_text(low, "use --cookies"@)
        || contains_text(low, "authentication"@)
}

/// The downloader's error output asks for browser cookies: its lower-case
/// form does.
pub open spec fn asks_for_cookies(stderr: Seq<char>) -> bool {
    lowered_asks_for_cookies(unicode_lowercase(stderr))
}

/// Whether already lower-cased error output asks for browser cookies.
pub fn lowered_needs_browser_cookies(low: &str) -> (r: bool)
    ensures
        r == lowered_asks_for_cookies(low@),
{
    let lc = chars_of(low);
    let a = chars_of("sign in to confirm you're not a bot");
    let b = chars_of("--cookies-from-browser");
    let c = chars_of("use --cookies");
    let d = chars_of("authentication");
    contains_exec(&lc, &a) || contains_exec(&lc, &b) || contains_exec(&lc, &c) || contains_exec(&lc, &d)
}

/// Whether a failed download should be retried with browser cookies.
pub fn needs_browser_cookies(stderr: &str) -> (r: bool)
    ensures
        r == asks_for_cookies(stderr@),
{
    let low = lowercase(stderr);
    lowered_needs_browser_cookies(low.as_str())
}

/// The message shown when the downloader fails: its last error line (or
/// "unknown error"), and which browser's cookies were tried, if any.
pub open spec fn failure_message(stderr: Seq<char>, tried: Option<BrowserCookieSource>) -> Seq<char> {
    let ls = lines_of(stderr);
    let last = if ls.len() > 0 { ls.last() } else { "unknown error"@ };
    let hint = match tried {
        Some(b) => " Tried browser cookies from "@ + browser_label(b) + "."@,
        None => Seq::empty(),
    };
    "yt-dlp failed: "@ + last + hint
}

/// Display name of a browser.
pub open spec fn browser_label(b: BrowserCookieSource) -> Seq<char> {
    match b {
        BrowserCookieSource::Chrome => "Chrome"@,
        BrowserCookieSource::Safari => "Safari"@,
        BrowserCookieSource::Firefox => "Firefox"@,
    }
}

/// The message shown when the downloader fails.
pub fn download_failure_message(stderr: &str, tried_cookies_from: Option<BrowserCookieSource>) -> (r: String)
    ensures
        r@ == failure_message(stderr@, tried_cookies_from),
{
    let chars = chars_of(stderr);
    let lines = split_lines(&chars);
    let mut msg = String::from_str("yt-dlp failed: ");
    if lines.len() > 0 {
        let last = string_of_chars(lines[lines.len() - 1].as_slice());
        push_str(&mut msg, last.as_str());
    } else {
        push_str(&mut msg, "unknown error");
    }
    match tried_cookies_from {
        Some(b) => {
            push_str(&mut msg, " Tried browser cookies from ");
            push_str(&mut msg, b.label());
            push_str(&mut msg, ".");
        },
        None => {},
    }
    assert(msg@ =~= failure_message(stderr@, tried_cookies_from));
    msg
}

} // verus!
