//! Text as sequences of characters.

use vstd::prelude::*;

verus! {

/// The characters with the Unicode property White_Space.
pub open spec fn is_space(c: char) -> bool {
    let n = c as u32;
    ||| 0x9 <= n <= 0xd
    ||| n == 0x20
    ||| n == 0x85
    ||| n == 0xa0
    ||| n == 0x1680
    ||| 0x2000 <= n <= 0x200a
    ||| n == 0x2028
    ||| n == 0x2029
    ||| n == 0x202f
    ||| n == 0x205f
    ||| n == 0x3000
}

pub open spec fn trim_start(s: Seq<char>) -> Seq<char>
    decreases s.len(),
{
    if s.len() > 0 && is_space(s[0]) {
        trim_start(s.drop_first())
    } else {
        s
    }
}

pub open spec fn trim_end(s: Seq<char>) -> Seq<char>
    decreases s.len(),
{
    if s.len() > 0 && is_space(s.last()) {
        trim_end(s.drop_last())
    } else {
        s
    }
}

/// The text without the white space at its two ends.
pub open spec fn trimmed(s: Seq<char>) -> Seq<char> {
    trim_end(trim_start(s))
}

/// The text without the copies of `c` at its end.
pub open spec fn without_trailing(s: Seq<char>, c: char) -> Seq<char>
    decreases s.len(),
{
    if s.len() > 0 && s.last() == c {
        without_trailing(s.drop_last(), c)
    } else {
        s
    }
}

/// `a < b`, character by character.
pub open spec fn text_before(a: Seq<char>, b: Seq<char>) -> bool
    decreases a.len(),
{
    if b.len() == 0 {
        false
    } else if a.len() == 0 {
        true
    } else if a[0] != b[0] {
        (a[0] as u32) < (b[0] as u32)
    } else {
        text_before(a.drop_first(), b.drop_first())
    }
}

/// No text comes before itself.
pub proof fn before_irreflexive(a: Seq<char>)
    ensures
        !text_before(a, a),
    decreases a.len(),
{
    if a.len() > 0 {
        before_irreflexive(a.drop_first());
    }
}

/// Of two texts at most one comes before the other.
pub proof fn before_asymmetric(a: Seq<char>, b: Seq<char>)
    requires
        text_before(a, b),
    ensures
        !text_before(b, a),
    decreases a.len(),
{
    if a.len() > 0 && b.len() > 0 && a[0] == b[0] {
        before_asymmetric(a.drop_first(), b.drop_first());
    }
}

/// What comes before a text comes before what that text comes before.
pub proof fn before_transitive(a: Seq<char>, b: Seq<char>, c: Seq<char>)
    requires
        text_before(a, b),
        text_before(b, c),
    ensures
        text_before(a, c),
    decreases a.len(),
{
    if a.len() > 0 && b.len() > 0 && c.len() > 0 && a[0] == b[0] && b[0] == c[0] {
        before_transitive(a.drop_first(), b.drop_first(), c.drop_first());
    }
}

proof fn lemma_code_points(a: char, b: char)
    requires
        a != b,
    ensures
        (a as u32) < (b as u32) || (b as u32) < (a as u32),
{
}

/// Of two different texts one comes before the other.
pub proof fn before_total(a: Seq<char>, b: Seq<char>)
    requires
        a != b,
    ensures
        text_before(a, b) || text_before(b, a),
    decreases a.len(),
{
    if a.len() == 0 {
        if b.len() == 0 {
            assert(a =~= b);
        }
    } else if b.len() > 0 && a[0] == b[0] {
        if a.drop_first() == b.drop_first() {
            assert(a =~= seq![a[0]] + a.drop_first());
            assert(b =~= seq![b[0]] + b.drop_first());
        }
        before_total(a.drop_first(), b.drop_first());
    } else if b.len() > 0 {
        lemma_code_points(a[0], b[0]);
    }
}

pub open spec fn is_ascii_alphanumeric(c: char) -> bool {
    ||| '0' <= c <= '9'
    ||| 'A' <= c <= 'Z'
    ||| 'a' <= c <= 'z'
}

/// The views of a list of strings.
pub open spec fn views(list: Seq<String>) -> Seq<Seq<char>> {
    list.map_values(|s: String| s@)
}

/// The texts in a row, with `separator` between each two.
pub open spec fn joined(list: Seq<Seq<char>>, separator: Seq<char>) -> Seq<char>
    decreases list.len(),
{
    if list.len() == 0 {
        Seq::empty()
    } else if list.len() == 1 {
        list[0]
    } else {
        joined(list.drop_last(), separator) + separator + list.last()
    }
}

pub open spec fn is_ascii_text(s: Seq<char>) -> bool {
    forall|i: int| 0 <= i < s.len() ==> (#[trigger] s[i]) as u32 <= 0x7f
}

pub open spec fn is_small_letter(c: char) -> bool {
    'a' <= c <= 'z'
}

pub open spec fn has_no_small_letter(s: Seq<char>) -> bool {
    forall|i: int| 0 <= i < s.len() ==> !is_small_letter(#[trigger] s[i])
}

pub open spec fn is_capital(c: char) -> bool {
    'A' <= c <= 'Z'
}

pub open spec fn ascii_upper(s: Seq<char>) -> Seq<char> {
    s.map_values(
        |c: char|
            if is_small_letter(c) {
                (c as u32 - 0x20) as char
            } else {
                c
            },
    )
}

pub open spec fn ascii_lower(s: Seq<char>) -> Seq<char> {
    s.map_values(
        |c: char|
            if is_capital(c) {
                (c as u32 + 0x20) as char
            } else {
                c
            },
    )
}

/// What `str::to_uppercase` makes of a text that is not all ASCII.
pub uninterp spec fn unicode_upper(s: Seq<char>) -> Seq<char>;

/// What `str::to_lowercase` makes of a text that is not all ASCII.
pub uninterp spec fn unicode_lower(s: Seq<char>) -> Seq<char>;

/// A text in upper case.
pub open spec fn uppercase(s: Seq<char>) -> Seq<char> {
    if is_ascii_text(s) {
        ascii_upper(s)
    } else {
        unicode_upper(s)
    }
}

/// A text in lower case.
pub open spec fn lowercase(s: Seq<char>) -> Seq<char> {
    if is_ascii_text(s) {
        ascii_lower(s)
    } else {
        unicode_lower(s)
    }
}

/// Calls `str::to_uppercase`. The claims are that ASCII text is mapped letter by letter,
/// `a` to `z` to `A` to `Z` and the others to themselves, and that the result for other
/// text depends on the text alone; the case tables beyond ASCII are not stated.
#[verifier::external_body]
pub(crate) fn to_upper(s: &str) -> (r: String)
    ensures
        r@ == (if is_ascii_text(s@) {
            ascii_upper(s@)
        } else {
            unicode_upper(s@)
        }),
{
    s.to_uppercase()
}

/// Calls `str::to_lowercase`. The claims are that ASCII text is mapped letter by letter,
/// `A` to `Z` to `a` to `z` and the others to themselves, and that the result for other
/// text depends on the text alone; the case tables beyond ASCII are not stated.
#[verifier::external_body]
pub(crate) fn to_lower(s: &str) -> (r: String)
    ensures
        r@ == (if is_ascii_text(s@) {
            ascii_lower(s@)
        } else {
            unicode_lower(s@)
        }),
{
    s.to_lowercase()
}

/// ASCII text without small letters is in upper case already.
pub proof fn uppercase_keeps_capitals(s: Seq<char>)
    requires
        is_ascii_text(s),
        has_no_small_letter(s),
    ensures
        uppercase(s) == s,
{
    assert(ascii_upper(s) =~= s);
}

/// ASCII text in upper case has no small letter.
pub proof fn uppercase_has_no_small_letter(s: Seq<char>)
    requires
        is_ascii_text(s),
    ensures
        has_no_small_letter(uppercase(s)),
{
}

/// A text whose ends are no white space is trimmed already.
pub proof fn trimmed_keeps(s: Seq<char>)
    requires
        s.len() > 0 ==> !is_space(s[0]) && !is_space(s.last()),
    ensures
        trimmed(s) == s,
{
}

fn space(c: char) -> (r: bool)
    ensures
        r == is_space(c),
{
    let n: u32 = c as u32;
    (0x9 <= n && n <= 0xd) || n == 0x20 || n == 0x85 || n == 0xa0 || n == 0x1680 || (0x2000 <= n
        && n <= 0x200a) || n == 0x2028 || n == 0x2029 || n == 0x202f || n == 0x205f || n == 0x3000
}

/// The characters of a text.
pub fn chars_of(s: &str) -> (r: Vec<char>)
    ensures
        r@ == s@,
{
    let mut r: Vec<char> = Vec::new();
    for c in iter: s.chars()
        invariant
            iter.seq() == s@,
            r@ == s@.take(iter.index()),
    {
        r.push(c);
    }
    assert(s@.take(s@.len() as int) =~= s@);
    r
}

/// `str::trim`.
pub fn trim(s: &str) -> (r: String)
    ensures
        r@ == trimmed(s@),
{
    let chars = chars_of(s);
    let len: usize = chars.len();
    let mut from: usize = 0;
    assert(s@.skip(0) =~= s@);
    while from < len && space(chars[from])
        invariant
            from <= len == chars@.len(),
            chars@ == s@,
            trim_start(s@) == trim_start(s@.skip(from as int)),
        decreases len - from,
    {
        assert(s@.skip(from as int).drop_first() =~= s@.skip(from + 1));
        from = from + 1;
    }
    assert(trim_start(s@) == s@.skip(from as int));
    let mut to: usize = len;
    assert(s@.subrange(from as int, to as int) =~= s@.skip(from as int));
    while from < to && space(chars[to - 1])
        invariant
            from <= to <= len == chars@.len(),
            chars@ == s@,
            trimmed(s@) == trim_end(s@.subrange(from as int, to as int)),
        decreases to - from,
    {
        assert(s@.subrange(from as int, to as int).drop_last() =~= s@.subrange(
            from as int,
            to - 1,
        ));
        to = to - 1;
    }
    s.substring_char(from, to).to_owned()
}

/// `str::trim_end_matches` with one character.
pub fn trim_trailing(s: &str, c: char) -> (r: String)
    ensures
        r@ == without_trailing(s@, c),
{
    let chars = chars_of(s);
    let mut to: usize = chars.len();
    assert(s@.take(to as int) =~= s@);
    while to > 0 && chars[to - 1] == c
        invariant
            to <= chars@.len(),
            chars@ == s@,
            without_trailing(s@, c) == without_trailing(s@.take(to as int), c),
        decreases to,
    {
        assert(s@.take(to as int).drop_last() =~= s@.take(to - 1));
        to = to - 1;
    }
    assert(s@.take(to as int) =~= s@.subrange(0, to as int));
    s.substring_char(0, to).to_owned()
}

pub fn same_text(a: &str, b: &str) -> (r: bool)
    ensures
        r == (a@ == b@),
{
    a.to_owned() == b.to_owned()
}

/// Whether `a` comes before `b`.
pub fn before(a: &str, b: &str) -> (r: bool)
    ensures
        r == text_before(a@, b@),
{
    let x = chars_of(a);
    let y = chars_of(b);
    let mut i: usize = 0;
    assert(a@.skip(0) =~= a@);
    assert(b@.skip(0) =~= b@);
    while i < x.len() && i < y.len() && x[i] == y[i]
        invariant
            i <= x@.len(),
            i <= y@.len(),
            x@ == a@,
            y@ == b@,
            text_before(a@, b@) == text_before(a@.skip(i as int), b@.skip(i as int)),
        decreases x@.len() - i,
    {
        assert(a@.skip(i as int).drop_first() =~= a@.skip(i + 1));
        assert(b@.skip(i as int).drop_first() =~= b@.skip(i + 1));
        i = i + 1;
    }
    if i >= y.len() {
        false
    } else if i >= x.len() {
        true
    } else {
        (x[i] as u32) < (y[i] as u32)
    }
}

pub fn ascii_alphanumeric(c: char) -> (r: bool)
    ensures
        r == is_ascii_alphanumeric(c),
{
    ('0' <= c && c <= '9') || ('A' <= c && c <= 'Z') || ('a' <= c && c <= 'z')
}

/// `join` on a list of strings.
pub fn join(list: &Vec<String>, separator: &str) -> (r: String)
    ensures
        r@ == joined(views(list@), separator@),
{
    let mut r = String::new();
    let mut i: usize = 0;
    while i < list.len()
        invariant
            i <= list@.len(),
            r@ == joined(views(list@).take(i as int), separator@),
        decreases list@.len() - i,
    {
        if i > 0 {
            r.append(separator);
        }
        r.append(list[i].as_str());
        proof {
            let all = views(list@);
            assert(all.take(i + 1).drop_last() =~= all.take(i as int));
            assert(all.take(i + 1).last() == list@[i as int]@);
            if i == 0 {
                assert(all.take(1)[0] == list@[0]@);
                assert(r@ =~= list@[0]@);
            }
        }
        i = i + 1;
    }
    assert(views(list@).take(list@.len() as int) =~= views(list@));
    r
}

/// Whether a text is one of a list.
pub fn listed(list: &Vec<String>, s: &str) -> (r: bool)
    ensures
        r == views(list@).contains(s@),
{
    let mut i: usize = 0;
    while i < list.len()
        invariant
            i <= list@.len(),
            forall|j: int| 0 <= j < i ==> #[trigger] views(list@)[j] != s@,
        decreases list@.len() - i,
    {
        if same_text(list[i].as_str(), s) {
            assert(views(list@)[i as int] == s@);
            return true;
        }
        i = i + 1;
    }
    false
}

/// The text behind the last `c`, or all of it where there is none.
pub open spec fn after_last(s: Seq<char>, c: char) -> Seq<char>
    decreases s.len(),
{
    if s.len() == 0 || s.last() == c {
        Seq::empty()
    } else {
        after_last(s.drop_last(), c).push(s.last())
    }
}

/// What follows `front` in a text that starts with it.
pub open spec fn behind(s: Seq<char>, front: Seq<char>) -> Option<Seq<char>> {
    if front.len() <= s.len() && s.take(front.len() as int) == front {
        Some(s.skip(front.len() as int))
    } else {
        None
    }
}

/// What precedes `back` in a text that ends with it.
pub open spec fn ahead(s: Seq<char>, back: Seq<char>) -> Option<Seq<char>> {
    if back.len() <= s.len() && s.skip(s.len() - back.len()) == back {
        Some(s.take(s.len() - back.len()))
    } else {
        None
    }
}

pub fn text_after_last(s: &str, c: char) -> (r: String)
    ensures
        r@ == after_last(s@, c),
{
    let chars = chars_of(s);
    let len: usize = chars.len();
    let mut from: usize = len;
    assert(s@.take(len as int) =~= s@);
    assert(s@.skip(len as int) =~= Seq::empty());
    assert(after_last(s@, c) =~= after_last(s@.take(len as int), c) + s@.skip(len as int));
    while from > 0 && chars[from - 1] != c
        invariant
            from <= len == chars@.len(),
            chars@ == s@,
            after_last(s@, c) == after_last(s@.take(from as int), c) + s@.skip(from as int),
        decreases from,
    {
        proof {
            let head = s@.take(from as int);
            assert(head.drop_last() =~= s@.take(from - 1));
            assert(after_last(head.drop_last(), c).push(head.last()) + s@.skip(from as int)
                =~= after_last(head.drop_last(), c) + s@.skip(from - 1));
        }
        from = from - 1;
    }
    assert(after_last(s@, c) =~= s@.subrange(from as int, len as int));
    s.substring_char(from, len).to_owned()
}

/// `str::strip_prefix`.
pub fn strip_front(s: &str, front: &str) -> (r: Option<String>)
    ensures
        r is Some <==> behind(s@, front@) is Some,
        r matches Some(t) ==> behind(s@, front@) == Some(t@),
{
    let len: usize = s.unicode_len();
    let n: usize = front.unicode_len();
    if n > len {
        return None;
    }
    let head = s.substring_char(0, n);
    assert(head@ =~= s@.take(n as int));
    if !same_text(head, front) {
        return None;
    }
    let tail = s.substring_char(n, len).to_owned();
    assert(tail@ =~= s@.skip(n as int));
    Some(tail)
}

/// `str::strip_suffix`.
pub fn strip_back(s: &str, back: &str) -> (r: Option<String>)
    ensures
        r is Some <==> ahead(s@, back@) is Some,
        r matches Some(t) ==> ahead(s@, back@) == Some(t@),
{
    let len: usize = s.unicode_len();
    let n: usize = back.unicode_len();
    if n > len {
        return None;
    }
    let tail = s.substring_char(len - n, len);
    assert(tail@ =~= s@.skip(len - n));
    if !same_text(tail, back) {
        return None;
    }
    let head = s.substring_char(0, len - n).to_owned();
    assert(head@ =~= s@.take(len - n));
    Some(head)
}

/// In front of a text without `c`, everything up to a `c` falls away.
pub proof fn after_last_drops_the_front(a: Seq<char>, b: Seq<char>, c: char)
    requires
        !b.contains(c),
    ensures
        after_last(a.push(c) + b, c) == b,
        after_last(b, c) == b,
    decreases b.len(),
{
    let all = a.push(c) + b;
    if b.len() == 0 {
        assert(all.last() == c);
        assert(b =~= Seq::empty());
    } else {
        let rest = b.drop_last();
        assert(b.contains(b.last()));
        assert forall|x: char| rest.contains(x) implies b.contains(x) by {
            let i = choose|i: int| 0 <= i < rest.len() && rest[i] == x;
            assert(b[i] == x);
        }
        after_last_drops_the_front(a, rest, c);
        assert(all.drop_last() =~= a.push(c) + rest);
        assert(all.last() == b.last());
        assert(rest.push(b.last()) =~= b);
    }
}

proof fn lemma_trim_start(a: Seq<char>, t: Seq<char>)
    requires
        forall|i: int| 0 <= i < a.len() ==> is_space(#[trigger] a[i]),
        t.len() > 0 ==> !is_space(t[0]),
    ensures
        trim_start(a + t) == t,
    decreases a.len(),
{
    if a.len() > 0 {
        assert((a + t).drop_first() =~= a.drop_first() + t);
        lemma_trim_start(a.drop_first(), t);
    } else {
        assert(a + t =~= t);
    }
}

proof fn lemma_trim_end(t: Seq<char>, b: Seq<char>)
    requires
        forall|i: int| 0 <= i < b.len() ==> is_space(#[trigger] b[i]),
        t.len() > 0 ==> !is_space(t.last()),
    ensures
        trim_end(t + b) == t,
    decreases b.len(),
{
    if b.len() > 0 {
        assert((t + b).drop_last() =~= t + b.drop_last());
        lemma_trim_end(t, b.drop_last());
    } else {
        assert(t + b =~= t);
    }
}

proof fn lemma_all_space(a: Seq<char>)
    requires
        forall|i: int| 0 <= i < a.len() ==> is_space(#[trigger] a[i]),
    ensures
        trimmed(a) == Seq::<char>::empty(),
{
    let none = Seq::<char>::empty();
    lemma_trim_start(a, none);
    assert(a + none =~= a);
}

/// Trimming takes off the tabs, line ends, spaces and other white space in front of a
/// text and behind it, and nothing else.
pub proof fn trimming_takes_off_white_space(a: Seq<char>, t: Seq<char>, b: Seq<char>)
    requires
        forall|i: int|
            0 <= i < a.len() ==> {
                let n = (#[trigger] a[i]) as u32;
                9 <= n <= 13 || n == 32 || n == 0x85 || n == 0xa0 || n == 0x1680 || 0x2000 <= n
                    <= 0x200a || n == 0x2028 || n == 0x2029 || n == 0x202f || n == 0x205f || n
                    == 0x3000
            },
        forall|i: int|
            0 <= i < b.len() ==> {
                let n = (#[trigger] b[i]) as u32;
                9 <= n <= 13 || n == 32 || n == 0x85 || n == 0xa0 || n == 0x1680 || 0x2000 <= n
                    <= 0x200a || n == 0x2028 || n == 0x2029 || n == 0x202f || n == 0x205f || n
                    == 0x3000
            },
        t.len() > 0 ==> {
            let (m, n) = (t[0] as u32, t.last() as u32);
            &&& !(9 <= m <= 13 || m == 32 || m == 0x85 || m == 0xa0 || m == 0x1680 || 0x2000 <= m
                <= 0x200a || m == 0x2028 || m == 0x2029 || m == 0x202f || m == 0x205f || m
                == 0x3000)
            &&& !(9 <= n <= 13 || n == 32 || n == 0x85 || n == 0xa0 || n == 0x1680 || 0x2000 <= n
                <= 0x200a || n == 0x2028 || n == 0x2029 || n == 0x202f || n == 0x205f || n
                == 0x3000)
        },
    ensures
        trimmed(a + t + b) == t,
{
    assert forall|i: int| 0 <= i < a.len() implies is_space(#[trigger] a[i]) by {
    }
    assert forall|i: int| 0 <= i < b.len() implies is_space(#[trigger] b[i]) by {
    }
    if t.len() > 0 {
        assert(a + t + b =~= a + (t + b));
        lemma_trim_start(a, t + b);
        lemma_trim_end(t, b);
    } else {
        assert(a + t + b =~= a + b);
        assert forall|i: int| 0 <= i < (a + b).len() implies is_space(#[trigger] (a + b)[i]) by {
            if i >= a.len() {
                assert((a + b)[i] == b[i - a.len()]);
            }
        }
        lemma_all_space(a + b);
        assert(t =~= Seq::empty());
    }
}

/// ASCII text changes its case letter by letter, and everything but letters stays.
pub proof fn case_changes_letter_by_letter(s: Seq<char>)
    requires
        forall|i: int| 0 <= i < s.len() ==> (#[trigger] s[i]) as u32 <= 0x7f,
    ensures
        uppercase(s).len() == s.len(),
        lowercase(s).len() == s.len(),
        forall|i: int|
            0 <= i < s.len() ==> #[trigger] uppercase(s)[i] as u32 == if 97 <= s[i] as u32 <= 122 {
                s[i] as u32 - 32
            } else {
                s[i] as u32 as int
            },
        forall|i: int|
            0 <= i < s.len() ==> #[trigger] lowercase(s)[i] as u32 == if 65 <= s[i] as u32 <= 90 {
                s[i] as u32 + 32
            } else {
                s[i] as u32 as int
            },
{
    assert forall|i: int| 0 <= i < s.len() implies #[trigger] uppercase(s)[i] as u32 == if 97
        <= s[i] as u32 <= 122 {
        s[i] as u32 - 32
    } else {
        s[i] as u32 as int
    } by {
        lemma_other_case(s[i]);
    }
    assert forall|i: int| 0 <= i < s.len() implies #[trigger] lowercase(s)[i] as u32 == if 65
        <= s[i] as u32 <= 90 {
        s[i] as u32 + 32
    } else {
        s[i] as u32 as int
    } by {
        lemma_other_case(s[i]);
    }
}

proof fn lemma_other_case(c: char)
    ensures
        is_small_letter(c) <==> 97 <= c as u32 <= 122,
        is_capital(c) <==> 65 <= c as u32 <= 90,
        is_small_letter(c) ==> ((c as u32 - 0x20) as char) as u32 == c as u32 - 32,
        is_capital(c) ==> ((c as u32 + 0x20) as char) as u32 == c as u32 + 32,
{
}

/// Texts compare at the first place where they differ, by the code points there; a text
/// comes before the longer ones that start with it.
pub proof fn texts_compare_where_they_differ(a: Seq<char>, b: Seq<char>, k: int)
    requires
        0 <= k <= a.len(),
        k <= b.len(),
        a.take(k) == b.take(k),
    ensures
        k < a.len() && k < b.len() && a[k] != b[k] ==> (text_before(a, b) <==> (a[k] as u32) < (
        b[k] as u32)),
        k == a.len() ==> (text_before(a, b) <==> k < b.len()),
        k == b.len() ==> !text_before(a, b),
    decreases k,
{
    if k > 0 {
        assert(a[0] == a.take(k)[0] && b[0] == b.take(k)[0]);
        let (x, y) = (a.drop_first(), b.drop_first());
        let (v, w) = (x.take(k - 1), y.take(k - 1));
        assert forall|i: int| 0 <= i < k - 1 implies #[trigger] v[i] == w[i] by {
            assert(v[i] == a.take(k)[i + 1]);
            assert(w[i] == b.take(k)[i + 1]);
        }
        assert(v =~= w);
        texts_compare_where_they_differ(x, y, k - 1);
    }
}

/// Taking off the copies of a character at the end leaves what stands in front of them.
pub proof fn trailing_copies_fall_away(t: Seq<char>, c: char, copies: Seq<char>)
    requires
        t.len() > 0 ==> t.last() != c,
        forall|i: int| 0 <= i < copies.len() ==> #[trigger] copies[i] == c,
    ensures
        without_trailing(t + copies, c) == t,
    decreases copies.len(),
{
    if copies.len() > 0 {
        assert((t + copies).drop_last() =~= t + copies.drop_last());
        trailing_copies_fall_away(t, c, copies.drop_last());
    } else {
        assert(t + copies =~= t);
    }
}

/// What is left of a text without its front or its back is the rest of it, and only a
/// text that starts or ends with them has such a rest.
pub proof fn stripping_takes_off_an_end(s: Seq<char>, part: Seq<char>, rest: Seq<char>)
    ensures
        behind(s, part) == Some(rest) <==> s == part + rest,
        ahead(s, part) == Some(rest) <==> s == rest + part,
{
    if behind(s, part) == Some(rest) {
        assert(s =~= s.take(part.len() as int) + s.skip(part.len() as int));
    }
    if s == part + rest {
        assert(s.take(part.len() as int) =~= part);
        assert(s.skip(part.len() as int) =~= rest);
    }
    if ahead(s, part) == Some(rest) {
        let n = s.len() - part.len();
        assert(s =~= s.take(n) + s.skip(n));
    }
    if s == rest + part {
        assert(s.take(s.len() - part.len()) =~= rest);
        assert(s.skip(s.len() - part.len()) =~= part);
    }
}

/// Joined texts stand in a row, the separator between each two.
pub proof fn joined_texts_stand_in_a_row(
    list: Seq<Seq<char>>,
    x: Seq<char>,
    separator: Seq<char>,
)
    ensures
        joined(Seq::empty(), separator) == Seq::<char>::empty(),
        joined(seq![x], separator) == x,
        list.len() > 0 ==> joined(list.push(x), separator) == joined(list, separator) + separator
            + x,
{
    assert(list.push(x).drop_last() =~= list);
}

/// What stands behind the last `c` has no `c`, ends the text, and follows a `c` unless it
/// is all of the text.
pub proof fn text_behind_the_last_is_its_end(s: Seq<char>, c: char)
    ensures
        !after_last(s, c).contains(c),
        after_last(s, c).len() <= s.len(),
        s.skip(s.len() - after_last(s, c).len()) == after_last(s, c),
        after_last(s, c).len() < s.len() ==> s[s.len() - after_last(s, c).len() - 1] == c,
    decreases s.len(),
{
    let t = after_last(s, c);
    if s.len() > 0 && s.last() != c {
        let rest = s.drop_last();
        let short = after_last(rest, c);
        text_behind_the_last_is_its_end(rest, c);
        assert(t == short.push(s.last()));
        if t.contains(c) {
            let i = choose|i: int| 0 <= i < t.len() && t[i] == c;
            if i < short.len() {
                assert(short[i] == c);
            }
        }
        let n = s.len() - t.len();
        assert(rest.skip(n) == short);
        assert(s.skip(n) =~= rest.skip(n).push(s.last()));
    } else {
        assert(s.skip(s.len() as int) =~= Seq::empty());
    }
}

/// A list of strings is seen text by text.
pub proof fn strings_are_seen_as_texts(list: Seq<String>)
    ensures
        views(list).len() == list.len(),
        forall|i: int| 0 <= i < list.len() ==> #[trigger] views(list)[i] == list[i]@,
{
}

} // verus!
