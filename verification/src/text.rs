//! Characters, words and the conversions between strings and character
//! vectors that the rest of the library builds on.

use vstd::prelude::*;

verus! {

/// `String::push` appends one character to the end of the string.
pub assume_specification[ String::push ](s: &mut String, c: char)
    ensures
        final(s)@ == old(s)@.push(c),
;

/// The characters that separate words: the Unicode `White_Space` code points.
pub open spec fn is_whitespace(c: char) -> bool {
    let n = c as u32;
    ||| 0x09 <= n <= 0x0D
    ||| n == 0x20
    ||| n == 0x85
    ||| n == 0xA0
    ||| n == 0x1680
    ||| 0x2000 <= n <= 0x200A
    ||| n == 0x2028
    ||| n == 0x2029
    ||| n == 0x202F
    ||| n == 0x205F
    ||| n == 0x3000
}

/// Decides whether `c` separates words.
pub fn is_whitespace_char(c: char) -> (r: bool)
    ensures
        r == is_whitespace(c),
{
    let n: u32 = c as u32;
    (0x09 <= n && n <= 0x0D) || n == 0x20 || n == 0x85 || n == 0xA0 || n == 0x1680 || (0x2000 <= n
        && n <= 0x200A) || n == 0x2028 || n == 0x2029 || n == 0x202F || n == 0x205F || n == 0x3000
}

/// A word: at least one character, none of them whitespace.
pub open spec fn is_word(w: Seq<char>) -> bool {
    w.len() > 0 && no_whitespace(w)
}

/// Left-to-right scan of `s`: the words already closed by whitespace, and the
/// run of non-whitespace characters that is still open at the end of `s`.
pub open spec fn scan(s: Seq<char>) -> (Seq<Seq<char>>, Seq<char>)
    decreases s.len(),
{
    if s.len() == 0 {
        (Seq::empty(), Seq::empty())
    } else {
        let (done, open) = scan(s.drop_last());
        if is_whitespace(s.last()) {
            if open.len() > 0 {
                (done.push(open), Seq::empty())
            } else {
                (done, open)
            }
        } else {
            (done, open.push(s.last()))
        }
    }
}

/// The words of `s`: its maximal runs of non-whitespace characters, in order.
pub open spec fn words(s: Seq<char>) -> Seq<Seq<char>> {
    let (done, open) = scan(s);
    if open.len() > 0 {
        done.push(open)
    } else {
        done
    }
}

/// The words `ws` written out with one space between neighbours.
pub open spec fn join(ws: Seq<Seq<char>>) -> Seq<char>
    decreases ws.len(),
{
    if ws.len() == 0 {
        Seq::empty()
    } else if ws.len() == 1 {
        ws[0]
    } else {
        join(ws.drop_last()) + seq![' '] + ws.last()
    }
}

/// The character sequences held by a vector of character vectors.
pub open spec fn views(v: Seq<Vec<char>>) -> Seq<Seq<char>> {
    Seq::new(v.len(), |i: int| v[i]@)
}

/// The character sequences held by a vector of strings.
pub open spec fn string_views(v: Seq<String>) -> Seq<Seq<char>> {
    Seq::new(v.len(), |i: int| v[i]@)
}

/// The characters of `text`, in order.
pub fn to_chars(text: &str) -> (v: Vec<char>)
    ensures
        v@ == text@,
{
    let mut v: Vec<char> = Vec::new();
    proof {
        vstd::string::axiom_spec_iter(text);
    }
    for c in it: text.chars()
        invariant
            it.seq() == text@,
            v@ == it.seq().subrange(0, it.index() as int),
    {
        v.push(c);
    }
    assert(text@.subrange(0, text@.len() as int) == text@);
    v
}

/// Appends the characters `v[from..to]` to `out`.
pub fn push_chars(out: &mut String, v: &Vec<char>)
    ensures
        final(out)@ == old(out)@ + v@,
{
    let mut i: usize = 0;
    while i < v.len()
        invariant
            i <= v.len(),
            out@ == old(out)@ + v@.subrange(0, i as int),
        decreases v.len() - i,
    {
        out.push(v[i]);
        i += 1;
    }
    assert(v@.subrange(0, v.len() as int) == v@);
}

/// The string that holds exactly the characters of `v`.
pub fn from_chars(v: &Vec<char>) -> (s: String)
    ensures
        s@ == v@,
{
    let mut s = String::new();
    push_chars(&mut s, v);
    s
}

/// No character of `w` is whitespace.
pub open spec fn no_whitespace(w: Seq<char>) -> bool {
    forall|i: int| 0 <= i < w.len() ==> !is_whitespace(#[trigger] w[i])
}

/// Every element of `ws` is a word.
pub open spec fn all_words(ws: Seq<Seq<char>>) -> bool {
    forall|i: int| 0 <= i < ws.len() ==> is_word(#[trigger] ws[i])
}

/// Every closed word of a scan is a word, and its open run holds no whitespace.
pub proof fn lemma_scan_words(s: Seq<char>)
    ensures
        all_words(scan(s).0),
        no_whitespace(scan(s).1),
    decreases s.len(),
{
    if s.len() > 0 {
        lemma_scan_words(s.drop_last());
        let (done, open) = scan(s.drop_last());
        if is_whitespace(s.last()) {
            if open.len() > 0 {
                assert forall|i: int| 0 <= i < done.push(open).len() implies is_word(
                    #[trigger] done.push(open)[i],
                ) by {
                    if i < done.len() {
                        assert(done.push(open)[i] == done[i]);
                    }
                }
            }
        } else {
            let grown = open.push(s.last());
            assert forall|i: int| 0 <= i < grown.len() implies !is_whitespace(
                #[trigger] grown[i],
            ) by {
                if i < open.len() {
                    assert(grown[i] == open[i]);
                }
            }
        }
    }
}

/// Each element of `words(s)` is a word.
pub proof fn lemma_words_are_words(s: Seq<char>)
    ensures
        all_words(words(s)),
{
    lemma_scan_words(s);
    let (done, open) = scan(s);
    if open.len() > 0 {
        assert forall|i: int| 0 <= i < done.push(open).len() implies is_word(
            #[trigger] done.push(open)[i],
        ) by {
            if i < done.len() {
                assert(done.push(open)[i] == done[i]);
            }
        }
    }
}

/// Scanning past a run without whitespace extends the open run by it.
pub proof fn lemma_scan_append_run(a: Seq<char>, w: Seq<char>)
    requires
        no_whitespace(w),
    ensures
        scan(a + w) == (scan(a).0, scan(a).1 + w),
    decreases w.len(),
{
    if w.len() == 0 {
        assert(a + w == a);
        assert(scan(a).1 + w == scan(a).1);
    } else {
        let v = w.drop_last();
        assert(no_whitespace(v)) by {
            assert forall|i: int| 0 <= i < v.len() implies !is_whitespace(#[trigger] v[i]) by {
                assert(v[i] == w[i]);
            }
        }
        lemma_scan_append_run(a, v);
        assert((a + w).drop_last() == a + v);
        assert((a + w).last() == w.last());
        assert(!is_whitespace(w[w.len() - 1]));
        assert((scan(a).1 + v).push(w.last()) == scan(a).1 + w);
    }
}

/// Writing the words `ws` out with single spaces and splitting the result
/// again gives `ws` back.
pub proof fn lemma_words_of_join(ws: Seq<Seq<char>>)
    requires
        all_words(ws),
    ensures
        words(join(ws)) == ws,
        ws.len() > 0 ==> scan(join(ws)) == (ws.drop_last(), ws.last()),
    decreases ws.len(),
{
    if ws.len() == 0 {
    } else if ws.len() == 1 {
        let w = ws[0];
        assert(is_word(w));
        lemma_scan_append_run(Seq::empty(), w);
        assert(Seq::<char>::empty() + w == w);
        assert(ws.drop_last() == Seq::<Seq<char>>::empty());
        assert(Seq::<Seq<char>>::empty().push(w) == ws);
    } else {
        let init = ws.drop_last();
        let w = ws.last();
        assert(all_words(init)) by {
            assert forall|i: int| 0 <= i < init.len() implies is_word(#[trigger] init[i]) by {
                assert(init[i] == ws[i]);
            }
        }
        assert(is_word(w));
        assert(is_word(init.last()));
        lemma_words_of_join(init);
        let a = join(init);
        let sp = a + seq![' '];
        assert(sp.drop_last() == a);
        assert(sp.last() == ' ');
        assert(is_whitespace(' '));
        assert(init.drop_last().push(init.last()) == init);
        assert(scan(sp) == (init, Seq::<char>::empty()));
        lemma_scan_append_run(sp, w);
        assert(Seq::<char>::empty() + w == w);
        assert(init.push(w) == ws);
    }
}

/// Splits `text` at whitespace into its words.
pub fn split_words(text: &str) -> (ws: Vec<Vec<char>>)
    ensures
        views(ws@) == words(text@),
{
    let mut done: Vec<Vec<char>> = Vec::new();
    let mut open: Vec<char> = Vec::new();
    proof {
        vstd::string::axiom_spec_iter(text);
    }
    for c in it: text.chars()
        invariant
            it.seq() == text@,
            (views(done@), open@) == scan(it.seq().subrange(0, it.index() as int)),
    {
        let ghost before = it.seq().subrange(0, it.index() as int);
        let ghost after = it.seq().subrange(0, it.index() + 1);
        assert(after.drop_last() == before);
        assert(after.last() == c);
        if is_whitespace_char(c) {
            if open.len() > 0 {
                let ghost old_done = done@;
                done.push(open);
                assert(views(done@) == views(old_done).push(open@));
                open = Vec::new();
            }
        } else {
            open.push(c);
        }
    }
    assert(text@.subrange(0, text@.len() as int) == text@);
    if open.len() > 0 {
        let ghost old_done = done@;
        done.push(open);
        assert(views(done@) == views(old_done).push(open@));
    }
    done
}

/// The lower-case form of a text: what `str::to_lowercase` returns for it.
pub uninterp spec fn lowercase(s: Seq<char>) -> Seq<char>;

/// Whether a character is a letter or a digit: what `char::is_alphanumeric`
/// returns for it.
pub uninterp spec fn alphanumeric(c: char) -> bool;

/// Whether a character is a letter: what `char::is_alphabetic` returns for it.
pub uninterp spec fn alphabetic(c: char) -> bool;

/// `char::is_alphabetic`: whether the character is alphabetic in Unicode.
/// The result is named, not described.
#[verifier::external_body]
pub(crate) fn is_alphabetic(c: char) -> (r: bool)
    ensures
        r == alphabetic(c),
{
    c.is_alphabetic()
}

/// `str::to_lowercase`: the text with every character replaced by its
/// Unicode lower-case mapping. The result is named, not described.
#[verifier::external_body]
pub(crate) fn to_lowercase(s: &str) -> (r: String)
    ensures
        r@ == lowercase(s@),
{
    s.to_lowercase()
}

/// `char::is_alphanumeric`: whether the character is alphabetic or numeric
/// in Unicode. The result is named, not described.
#[verifier::external_body]
pub(crate) fn is_alphanumeric(c: char) -> (r: bool)
    ensures
        r == alphanumeric(c),
{
    c.is_alphanumeric()
}

/// The number of bytes that `c` takes in UTF-8.
pub open spec fn utf8_width(c: char) -> int {
    let n = c as u32;
    if n < 0x80 {
        1
    } else if n < 0x800 {
        2
    } else if n < 0x10000 {
        3
    } else {
        4
    }
}

/// The number of bytes that `w` takes in UTF-8.
pub open spec fn byte_len(w: Seq<char>) -> int
    decreases w.len(),
{
    if w.len() == 0 {
        0
    } else {
        byte_len(w.drop_last()) + utf8_width(w.last())
    }
}

/// Counts the bytes that `w` takes in UTF-8.
pub fn utf8_len(w: &Vec<char>) -> (n: u128)
    ensures
        n == byte_len(w@),
{
    let mut n: u128 = 0;
    let mut i: usize = 0;
    while i < w.len()
        invariant
            i <= w.len(),
            n == byte_len(w@.subrange(0, i as int)),
            n <= 4 * i,
        decreases w.len() - i,
    {
        assert(w@.subrange(0, i + 1).drop_last() == w@.subrange(0, i as int));
        assert(w@.subrange(0, i + 1).last() == w@[i as int]);
        let c: u32 = w[i] as u32;
        let width: u128 = if c < 0x80 {
            1
        } else if c < 0x800 {
            2
        } else if c < 0x10000 {
            3
        } else {
            4
        };
        n = n + width;
        i += 1;
    }
    assert(w@.subrange(0, w.len() as int) == w@);
    n
}

/// Decides whether two character vectors hold the same text.
pub fn chars_equal(a: &Vec<char>, b: &Vec<char>) -> (r: bool)
    ensures
        r == (a@ == b@),
{
    if a.len() != b.len() {
        return false;
    }
    let mut i: usize = 0;
    while i < a.len()
        invariant
            i <= a.len(),
            a.len() == b.len(),
            forall|j: int| 0 <= j < i ==> a@[j] == b@[j],
        decreases a.len() - i,
    {
        if a[i] != b[i] {
            return false;
        }
        i += 1;
    }
    assert(a@ =~= b@);
    true
}

/// Decides whether `w` is one of `list`.
pub fn contains_word(list: &Vec<Vec<char>>, w: &Vec<char>) -> (r: bool)
    ensures
        r == views(list@).contains(w@),
{
    let mut i: usize = 0;
    while i < list.len()
        invariant
            i <= list.len(),
            forall|j: int| 0 <= j < i ==> views(list@)[j] != w@,
        decreases list.len() - i,
    {
        if chars_equal(&list[i], w) {
            assert(views(list@)[i as int] == w@);
            return true;
        }
        i += 1;
    }
    false
}

/// `s` without the whitespace at its end.
pub open spec fn trim_end(s: Seq<char>) -> Seq<char>
    decreases s.len(),
{
    if s.len() > 0 && is_whitespace(s.last()) {
        trim_end(s.drop_last())
    } else {
        s
    }
}

/// `s` without the whitespace at its start.
pub open spec fn trim_start(s: Seq<char>) -> Seq<char>
    decreases s.len(),
{
    if s.len() > 0 && is_whitespace(s.first()) {
        trim_start(s.drop_first())
    } else {
        s
    }
}

/// `s` without the whitespace at its start and at its end.
pub open spec fn trimmed(s: Seq<char>) -> Seq<char> {
    trim_start(trim_end(s))
}

/// Removes the whitespace at the start and at the end of `v`.
pub fn trim_chars(v: &Vec<char>) -> (r: Vec<char>)
    ensures
        r@ == trimmed(v@),
{
    let mut end: usize = v.len();
    assert(v@.subrange(0, v.len() as int) == v@);
    while end > 0 && is_whitespace_char(v[end - 1])
        invariant
            end <= v.len(),
            trim_end(v@.subrange(0, end as int)) == trim_end(v@),
        decreases end,
    {
        assert(v@.subrange(0, end as int).drop_last() == v@.subrange(0, end - 1));
        end -= 1;
    }
    assert(v@.subrange(0, v.len() as int) == v@);
    let ghost kept = v@.subrange(0, end as int);
    assert(trim_end(v@) == kept);
    let mut start: usize = 0;
    while start < end && is_whitespace_char(v[start])
        invariant
            start <= end <= v.len(),
            kept == v@.subrange(0, end as int),
            trim_start(v@.subrange(start as int, end as int)) == trim_start(kept),
        decreases end - start,
    {
        assert(v@.subrange(start as int, end as int).drop_first() == v@.subrange(
            start + 1,
            end as int,
        ));
        start += 1;
    }
    let mut r: Vec<char> = Vec::new();
    let mut i: usize = start;
    while i < end
        invariant
            start <= i <= end <= v.len(),
            r@ == v@.subrange(start as int, i as int),
        decreases end - i,
    {
        r.push(v[i]);
        assert(v@.subrange(start as int, i + 1) == v@.subrange(start as int, i as int).push(
            v@[i as int],
        ));
        i += 1;
    }
    r
}

/// `needle` stands in `hay` at position `i`.
pub open spec fn occurs_at(hay: Seq<char>, needle: Seq<char>, i: int) -> bool {
    0 <= i && i + needle.len() <= hay.len() && hay.subrange(i, i + needle.len()) == needle
}

/// `needle` stands somewhere in `hay`.
pub open spec fn occurs_in(hay: Seq<char>, needle: Seq<char>) -> bool {
    exists|i: int| occurs_at(hay, needle, i)
}

/// Decides whether `needle` stands in `hay` at position `i`.
pub fn matches_at(hay: &Vec<char>, needle: &Vec<char>, i: usize) -> (r: bool)
    requires
        i + needle.len() <= hay.len(),
    ensures
        r == occurs_at(hay@, needle@, i as int),
{
    let mut j: usize = 0;
    while j < needle.len()
        invariant
            j <= needle.len(),
            i + needle.len() <= hay.len(),
            forall|k: int| 0 <= k < j ==> hay@[i + k] == needle@[k],
        decreases needle.len() - j,
    {
        if hay[i + j] != needle[j] {
            assert(hay@.subrange(i as int, i + needle.len())[j as int] != needle@[j as int]);
            return false;
        }
        j += 1;
    }
    assert(hay@.subrange(i as int, i + needle.len()) =~= needle@);
    true
}

/// Finds the first position at which `needle` stands in `hay`.
pub fn find_chars(hay: &Vec<char>, needle: &Vec<char>) -> (r: Option<usize>)
    ensures
        r is None <==> !occurs_in(hay@, needle@),
        r matches Some(p) ==> occurs_at(hay@, needle@, p as int) && forall|i: int|
            0 <= i < p ==> !occurs_at(hay@, needle@, i),
{
    if needle.len() > hay.len() {
        return None;
    }
    let last: usize = hay.len() - needle.len();
    let mut i: usize = 0;
    while i < last
        invariant
            i <= last,
            last == hay.len() - needle.len(),
            forall|k: int| 0 <= k < i ==> !occurs_at(hay@, needle@, k),
        decreases last - i,
    {
        if matches_at(hay, needle, i) {
            return Some(i);
        }
        i += 1;
    }
    if matches_at(hay, needle, last) {
        Some(last)
    } else {
        None
    }
}

/// `w` without the characters of `cut` at its end.
pub open spec fn cut_end(w: Seq<char>, cut: Seq<char>) -> Seq<char>
    decreases w.len(),
{
    if w.len() > 0 && cut.contains(w.last()) {
        cut_end(w.drop_last(), cut)
    } else {
        w
    }
}

/// `w` without the characters of `cut` at its start.
pub open spec fn cut_start(w: Seq<char>, cut: Seq<char>) -> Seq<char>
    decreases w.len(),
{
    if w.len() > 0 && cut.contains(w.first()) {
        cut_start(w.drop_first(), cut)
    } else {
        w
    }
}

/// `w` without the characters of `cut` at its start and at its end.
pub open spec fn cut_ends(w: Seq<char>, cut: Seq<char>) -> Seq<char> {
    cut_start(cut_end(w, cut), cut)
}

/// Decides whether `c` is one of `set`.
pub fn has_char(set: &Vec<char>, c: char) -> (r: bool)
    ensures
        r == set@.contains(c),
{
    let mut i: usize = 0;
    while i < set.len()
        invariant
            i <= set.len(),
            forall|k: int| 0 <= k < i ==> set@[k] != c,
        decreases set.len() - i,
    {
        if set[i] == c {
            return true;
        }
        i += 1;
    }
    false
}

/// Cuts the characters of `cut` off the start and the end of `w`.
pub fn cut_chars(w: &Vec<char>, cut: &Vec<char>) -> (r: Vec<char>)
    ensures
        r@ == cut_ends(w@, cut@),
{
    let mut end: usize = w.len();
    assert(w@.subrange(0, w.len() as int) == w@);
    while end > 0 && has_char(cut, w[end - 1])
        invariant
            end <= w.len(),
            cut_end(w@.subrange(0, end as int), cut@) == cut_end(w@, cut@),
        decreases end,
    {
        assert(w@.subrange(0, end as int).drop_last() == w@.subrange(0, end - 1));
        end -= 1;
    }
    let ghost kept = w@.subrange(0, end as int);
    assert(cut_end(w@, cut@) == kept);
    let mut start: usize = 0;
    while start < end && has_char(cut, w[start])
        invariant
            start <= end <= w.len(),
            kept == w@.subrange(0, end as int),
            cut_start(w@.subrange(start as int, end as int), cut@) == cut_start(kept, cut@),
        decreases end - start,
    {
        assert(w@.subrange(start as int, end as int).drop_first() == w@.subrange(
            start + 1,
            end as int,
        ));
        start += 1;
    }
    let mut r: Vec<char> = Vec::new();
    let mut i: usize = start;
    while i < end
        invariant
            start <= i <= end <= w.len(),
            r@ == w@.subrange(start as int, i as int),
        decreases end - i,
    {
        r.push(w[i]);
        assert(w@.subrange(start as int, i + 1) == w@.subrange(start as int, i as int).push(
            w@[i as int],
        ));
        i += 1;
    }
    r
}

} // verus!
