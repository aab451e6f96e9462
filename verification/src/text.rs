//! Text as sequences of characters: searching, trimming, splitting, joining.

use vstd::prelude::*;
use vstd::string::StrSliceExecFns;
use vstd::string::StringExecFns;

verus! {

/// The texts held by a list of strings.
pub open spec fn texts(list: Seq<String>) -> Seq<Seq<char>> {
    list.map_values(|s: String| s@)
}

/// `needle` stands in `hay` at position `i`.
pub open spec fn occurs_at(hay: Seq<char>, needle: Seq<char>, i: int) -> bool {
    &&& 0 <= i
    &&& i + needle.len() <= hay.len()
    &&& hay.subrange(i, i + needle.len()) == needle
}

/// `needle` stands somewhere in `hay`.
pub open spec fn contains_text(hay: Seq<char>, needle: Seq<char>) -> bool {
    exists|i: int| occurs_at(hay, needle, i)
}

/// The first position at or after `start` where `needle` stands in `hay`.
pub open spec fn find_from(hay: Seq<char>, needle: Seq<char>, start: int) -> Option<int>
    decreases hay.len() + 1 - start,
{
    if start + needle.len() > hay.len() {
        None
    } else if occurs_at(hay, needle, start) {
        Some(start)
    } else {
        find_from(hay, needle, start + 1)
    }
}

/// The first position where `needle` stands in `hay`.
pub open spec fn find_text(hay: Seq<char>, needle: Seq<char>) -> Option<int> {
    find_from(hay, needle, 0)
}

/// What `find_from` returns is the first occurrence, and it returns one whenever there is one.
pub proof fn lemma_find_from(hay: Seq<char>, needle: Seq<char>, start: int)
    requires
        0 <= start,
    ensures
        match find_from(hay, needle, start) {
            Some(i) => {
                &&& start <= i
                &&& occurs_at(hay, needle, i)
                &&& forall|j: int| start <= j < i ==> !occurs_at(hay, needle, j)
            },
            None => forall|j: int| start <= j ==> !occurs_at(hay, needle, j),
        },
    decreases hay.len() + 1 - start,
{
    if start + needle.len() <= hay.len() && !occurs_at(hay, needle, start) {
        lemma_find_from(hay, needle, start + 1);
    }
}

/// A search finds a position exactly where the text is contained.
pub proof fn lemma_find_iff_contains(hay: Seq<char>, needle: Seq<char>)
    ensures
        find_text(hay, needle) is Some <==> contains_text(hay, needle),
{
    lemma_find_from(hay, needle, 0);
}

/// The characters of `s`.
pub fn chars_of(s: &str) -> (chars: Vec<char>)
    ensures
        chars@ == s@,
{
    let mut chars: Vec<char> = Vec::new();
    for c in it: s.chars()
        invariant
            chars@ == s@.take(it.index() as int),
            it.seq() == s@,
    {
        chars.push(c);
    }
    chars
}

fn stands_at(hay: &Vec<char>, needle: &Vec<char>, i: usize) -> (found: bool)
    requires
        i + needle@.len() <= hay@.len(),
    ensures
        found == occurs_at(hay@, needle@, i as int),
{
    let mut k: usize = 0;
    while k < needle.len()
        invariant
            i + needle@.len() <= hay@.len(),
            k <= needle@.len(),
            hay@.subrange(i as int, i + k) == needle@.take(k as int),
        decreases needle.len() - k,
    {
        assert(i + k < hay.len());
        if hay[i + k] != needle[k] {
            proof {
                assert(hay@.subrange(i as int, i + needle@.len())[k as int] != needle@[k as int]);
            }
            return false;
        }
        proof {
            assert(hay@.subrange(i as int, i + k + 1) == hay@.subrange(i as int, i + k).push(
                hay@[i + k],
            ));
            assert(needle@.take(k + 1) == needle@.take(k as int).push(needle@[k as int]));
        }
        k = k + 1;
    }
    assert(needle@.take(k as int) == needle@);
    true
}

/// The first position where `needle` stands in `hay`.
pub fn find(hay: &Vec<char>, needle: &str) -> (res: Option<usize>)
    ensures
        match res {
            Some(i) => find_text(hay@, needle@) == Some(i as int),
            None => find_text(hay@, needle@) is None,
        },
{
    let needle_chars = chars_of(needle);
    let mut i: usize = 0;
    while needle_chars.len() <= hay.len() && i <= hay.len() - needle_chars.len()
        invariant
            needle_chars@ == needle@,
            i <= hay@.len(),
            find_text(hay@, needle@) == find_from(hay@, needle@, i as int),
        decreases hay.len() + 1 - i,
    {
        if stands_at(hay, &needle_chars, i) {
            return Some(i);
        }
        assert(i < hay.len()) by {
            assert(hay@.subrange(i as int, i + needle@.len()) =~= needle@ || needle@.len() > 0);
        }
        i = i + 1;
    }
    None
}

/// Whether `needle` stands somewhere in `hay`.
pub fn contains(hay: &str, needle: &str) -> (found: bool)
    ensures
        found == contains_text(hay@, needle@),
{
    let chars = chars_of(hay);
    proof {
        lemma_find_iff_contains(hay@, needle@);
    }
    find(&chars, needle).is_some()
}

/// The characters that `trim` removes: those with the Unicode property `White_Space`.
pub open spec fn is_space(c: char) -> bool {
    let v = c as u32;
    ||| 0x09 <= v <= 0x0d
    ||| v == 0x20
    ||| v == 0x85
    ||| v == 0xa0
    ||| v == 0x1680
    ||| 0x2000 <= v <= 0x200a
    ||| v == 0x2028
    ||| v == 0x2029
    ||| v == 0x202f
    ||| v == 0x205f
    ||| v == 0x3000
}

/// Characters that can be stripped from the ends of a text.
#[derive(Clone, Copy)]
pub enum CharClass {
    /// White space.
    Space,
    /// The double quote.
    Quote,
}

impl CharClass {
    pub open spec fn has(self, c: char) -> bool {
        match self {
            CharClass::Space => is_space(c),
            CharClass::Quote => c == '"',
        }
    }

    /// Whether `c` belongs to the class.
    pub fn holds(self, c: char) -> (res: bool)
        ensures
            res == self.has(c),
    {
        match self {
            CharClass::Space => {
                let v: u32 = c as u32;
                (0x09 <= v && v <= 0x0d) || v == 0x20 || v == 0x85 || v == 0xa0 || v == 0x1680 || (
                0x2000 <= v && v <= 0x200a) || v == 0x2028 || v == 0x2029 || v == 0x202f || v
                    == 0x205f || v == 0x3000
            },
            CharClass::Quote => c == '"',
        }
    }
}

/// `s` without the leading characters of the class.
pub open spec fn strip_start(s: Seq<char>, class: CharClass) -> Seq<char>
    decreases s.len(),
{
    if s.len() > 0 && class.has(s.first()) {
        strip_start(s.drop_first(), class)
    } else {
        s
    }
}

/// `s` without the trailing characters of the class.
pub open spec fn strip_end(s: Seq<char>, class: CharClass) -> Seq<char>
    decreases s.len(),
{
    if s.len() > 0 && class.has(s.last()) {
        strip_end(s.drop_last(), class)
    } else {
        s
    }
}

/// `s` without the characters of the class at either end.
pub open spec fn stripped(s: Seq<char>, class: CharClass) -> Seq<char> {
    strip_end(strip_start(s, class), class)
}

/// `s` without the characters of the class at either end.
pub fn strip<'a>(s: &'a str, class: CharClass) -> (res: &'a str)
    ensures
        res@ == stripped(s@, class),
{
    let chars = chars_of(s);
    let mut from: usize = 0;
    assert(s@.subrange(0, s@.len() as int) == s@);
    while from < chars.len() && class.holds(chars[from])
        invariant
            chars@ == s@,
            from <= s@.len(),
            strip_start(s@, class) == strip_start(
                s@.subrange(from as int, s@.len() as int),
                class,
            ),
        decreases chars.len() - from,
    {
        assert(s@.subrange(from as int, s@.len() as int).drop_first() == s@.subrange(
            from + 1,
            s@.len() as int,
        ));
        from = from + 1;
    }
    let ghost middle = s@.subrange(from as int, s@.len() as int);
    assert(strip_start(s@, class) == middle);
    let mut to: usize = chars.len();
    while from < to && class.holds(chars[to - 1])
        invariant
            chars@ == s@,
            from <= to <= s@.len(),
            strip_end(middle, class) == strip_end(s@.subrange(from as int, to as int), class),
        decreases to,
    {
        assert(s@.subrange(from as int, to as int).drop_last() == s@.subrange(
            from as int,
            to - 1,
        ));
        to = to - 1;
    }
    s.substring_char(from, to)
}

/// The parts of `s` between the separators; one part more than there are separators.
pub open spec fn split_on(s: Seq<char>, sep: char) -> Seq<Seq<char>>
    decreases s.len(),
{
    if s.len() == 0 {
        seq![Seq::<char>::empty()]
    } else {
        let before = split_on(s.drop_last(), sep);
        if s.last() == sep {
            before.push(Seq::<char>::empty())
        } else {
            before.drop_last().push(before.last().push(s.last()))
        }
    }
}

/// The parts of `s` between the separators.
pub fn split(s: &str, sep: char) -> (parts: Vec<String>)
    ensures
        texts(parts@) == split_on(s@, sep),
{
    let chars = chars_of(s);
    let mut parts: Vec<String> = Vec::new();
    let mut from: usize = 0;
    let mut i: usize = 0;
    assert(s@.subrange(0, 0) == Seq::<char>::empty());
    assert(texts(parts@).push(Seq::<char>::empty()) == seq![Seq::<char>::empty()]);
    assert(s@.take(0) == Seq::<char>::empty());
    while i < chars.len()
        invariant
            chars@ == s@,
            from <= i <= s@.len(),
            split_on(s@.take(i as int), sep) == texts(parts@).push(
                s@.subrange(from as int, i as int),
            ),
        decreases chars.len() - i,
    {
        let ghost before = texts(parts@);
        let ghost part = s@.subrange(from as int, i as int);
        assert(s@.take(i + 1).drop_last() == s@.take(i as int));
        assert(before.push(part).drop_last() == before);
        if chars[i] == sep {
            parts.push(s.substring_char(from, i).to_owned());
            from = i + 1;
            assert(texts(parts@) == before.push(part));
            assert(s@.subrange(from as int, i + 1) == Seq::<char>::empty());
        } else {
            assert(s@.subrange(from as int, i + 1) == part.push(s@[i as int]));
        }
        i = i + 1;
    }
    assert(s@.take(i as int) == s@);
    let ghost before = texts(parts@);
    let last = s.substring_char(from, i).to_owned();
    parts.push(last);
    assert(texts(parts@) == before.push(s@.subrange(from as int, i as int)));
    parts
}

/// The texts of `list`, one after the other, with `sep` between them.
pub open spec fn joined(list: Seq<Seq<char>>, sep: Seq<char>) -> Seq<char>
    decreases list.len(),
{
    if list.len() == 0 {
        Seq::empty()
    } else if list.len() == 1 {
        list[0]
    } else {
        joined(list.drop_last(), sep) + sep + list.last()
    }
}

/// The strings of `list`, one after the other, with `sep` between them.
pub fn join(list: &Vec<String>, sep: &str) -> (res: String)
    ensures
        res@ == joined(texts(list@), sep@),
{
    let mut res = String::new();
    let mut i: usize = 0;
    let ghost all = texts(list@);
    while i < list.len()
        invariant
            i <= list@.len(),
            all == texts(list@),
            res@ == joined(all.take(i as int), sep@),
        decreases list.len() - i,
    {
        assert(all.take(i + 1).drop_last() == all.take(i as int));
        if i > 0 {
            res.append(sep);
        }
        res.append(list[i].as_str());
        assert(res@ == joined(all.take(i + 1), sep@));
        i = i + 1;
    }
    assert(all.take(i as int) == all);
    res
}

/// A copy of `list`.
pub fn copy_texts(list: &Vec<String>) -> (res: Vec<String>)
    ensures
        texts(res@) == texts(list@),
{
    let mut res: Vec<String> = Vec::new();
    let mut i: usize = 0;
    while i < list.len()
        invariant
            i <= list@.len(),
            texts(res@) == texts(list@).take(i as int),
        decreases list.len() - i,
    {
        let ghost before = texts(res@);
        res.push(list[i].clone());
        assert(texts(res@) == before.push(list@[i as int]@));
        i = i + 1;
    }
    assert(texts(list@).take(i as int) == texts(list@));
    res
}

/// Whether `item` is one of the strings of `list`.
pub fn includes(list: &Vec<String>, item: &str) -> (res: bool)
    ensures
        res == texts(list@).contains(item@),
{
    let mut i: usize = 0;
    while i < list.len()
        invariant
            i <= list@.len(),
            forall|k: int| 0 <= k < i ==> texts(list@)[k] != item@,
        decreases list.len() - i,
    {
        if same_text(list[i].as_str(), item) {
            assert(texts(list@)[i as int] == item@);
            return true;
        }
        i = i + 1;
    }
    false
}

/// Whether `a` and `b` are the same text.
pub fn same_text(a: &str, b: &str) -> (res: bool)
    ensures
        res == (a@ == b@),
{
    let left = a.as_bytes();
    let right = b.as_bytes();
    proof {
        vstd::utf8::encode_utf8_decode_utf8(a@);
        vstd::utf8::encode_utf8_decode_utf8(b@);
    }
    if left.len() != right.len() {
        return false;
    }
    let mut i: usize = 0;
    while i < left.len()
        invariant
            i <= left@.len(),
            left@.len() == right@.len(),
            left@ == vstd::utf8::encode_utf8(a@),
            right@ == vstd::utf8::encode_utf8(b@),
            forall|k: int| 0 <= k < i ==> left@[k] == right@[k],
        decreases left.len() - i,
    {
        if left[i] != right[i] {
            return false;
        }
        i = i + 1;
    }
    assert(left@ == right@);
    true
}

/// `s` can be cut after `n` bytes of its UTF-8 encoding: no character straddles that place.
pub open spec fn cuttable(s: Seq<char>, n: int) -> bool {
    vstd::utf8::is_char_boundary(vstd::utf8::encode_utf8(s), n)
}

/// The text that the first `n` bytes of `s` encode.
pub open spec fn before_byte(s: Seq<char>, n: int) -> Seq<char> {
    vstd::utf8::decode_utf8(vstd::utf8::encode_utf8(s).subrange(0, n))
}

/// The text that the bytes of `s` after the first `n` encode.
pub open spec fn after_byte(s: Seq<char>, n: int) -> Seq<char> {
    let bytes = vstd::utf8::encode_utf8(s);
    vstd::utf8::decode_utf8(bytes.subrange(n, bytes.len() as int))
}

/// The number of bytes of the UTF-8 encoding of `s`.
pub open spec fn byte_len(s: Seq<char>) -> nat {
    vstd::utf8::encode_utf8(s).len()
}

/// The number of bytes of `s`.
pub fn len_in_bytes(s: &str) -> (n: usize)
    ensures
        n == byte_len(s@),
{
    s.as_bytes().len()
}

/// Cuts `s` after `n` bytes.
pub fn cut<'a>(s: &'a str, n: usize) -> (res: (&'a str, &'a str))
    requires
        cuttable(s@, n as int),
    ensures
        res.0@ == before_byte(s@, n as int),
        res.1@ == after_byte(s@, n as int),
{
    let res = s.split_at(n);
    proof {
        vstd::utf8::encode_utf8_decode_utf8(res.0@);
        vstd::utf8::encode_utf8_decode_utf8(res.1@);
    }
    res
}

/// The encoding of a concatenation is the concatenation of the encodings.
pub proof fn lemma_encode_concat(a: Seq<char>, b: Seq<char>)
    ensures
        vstd::utf8::encode_utf8(a + b) == vstd::utf8::encode_utf8(a) + vstd::utf8::encode_utf8(b),
    decreases a.len(),
{
    if a.len() == 0 {
        assert(a + b == b);
        assert(vstd::utf8::encode_utf8(a) + vstd::utf8::encode_utf8(b) == vstd::utf8::encode_utf8(
            b,
        ));
    } else {
        assert((a + b).drop_first() == a.drop_first() + b);
        lemma_encode_concat(a.drop_first(), b);
    }
}

proof fn lemma_boundary_after(a: Seq<char>, b: Seq<char>)
    ensures
        cuttable(a + b, byte_len(a) as int),
    decreases a.len(),
{
    let bytes = vstd::utf8::encode_utf8(a + b);
    vstd::utf8::encode_utf8_valid_utf8(a + b);
    lemma_encode_concat(a, b);
    if a.len() > 0 {
        vstd::utf8::encode_utf8_first_scalar(a + b);
        assert((a + b).drop_first() == a.drop_first() + b);
        lemma_encode_concat(a.drop_first(), b);
        lemma_boundary_after(a.drop_first(), b);
        assert(vstd::utf8::pop_first_scalar(bytes) == vstd::utf8::encode_utf8(a.drop_first() + b));
    }
}

/// A text can be cut between any two of its characters, and the two parts are the characters
/// before and after that place.
pub proof fn lemma_cut_between(a: Seq<char>, b: Seq<char>)
    ensures
        cuttable(a + b, byte_len(a) as int),
        before_byte(a + b, byte_len(a) as int) == a,
        after_byte(a + b, byte_len(a) as int) == b,
{
    lemma_boundary_after(a, b);
    lemma_encode_concat(a, b);
    let bytes = vstd::utf8::encode_utf8(a + b);
    assert(bytes.subrange(0, byte_len(a) as int) == vstd::utf8::encode_utf8(a));
    assert(bytes.subrange(byte_len(a) as int, bytes.len() as int) == vstd::utf8::encode_utf8(b));
    vstd::utf8::encode_utf8_decode_utf8(a);
    vstd::utf8::encode_utf8_decode_utf8(b);
}

/// The two parts of a cut make up the text that was cut.
pub proof fn lemma_cut_keeps_text(s: Seq<char>, n: int)
    requires
        cuttable(s, n),
    ensures
        before_byte(s, n) + after_byte(s, n) == s,
{
    vstd::utf8::encode_utf8_valid_utf8(s);
    vstd::utf8::encode_utf8_decode_utf8(s);
    vstd::utf8::decode_utf8_split(vstd::utf8::encode_utf8(s), n);
}

/// Every place of an ASCII text can be cut at, and bytes count characters there.
pub proof fn lemma_cut_ascii(s: Seq<char>, n: int)
    requires
        vstd::utf8::is_ascii_chars(s),
        0 <= n <= s.len(),
    ensures
        byte_len(s) == s.len(),
        cuttable(s, n),
        before_byte(s, n) == s.take(n),
        after_byte(s, n) == s.skip(n),
{
    vstd::utf8::is_ascii_chars_encode_utf8(s);
    vstd::utf8::is_ascii_chars_encode_utf8(s.take(n));
    assert(s.take(n) + s.skip(n) == s);
    lemma_cut_between(s.take(n), s.skip(n));
}

/// A text without the separator is its own only part.
pub proof fn lemma_split_single(s: Seq<char>, sep: char)
    requires
        !s.contains(sep),
    ensures
        split_on(s, sep) == seq![s],
    decreases s.len(),
{
    if s.len() > 0 {
        let head = s.drop_last();
        assert(s[s.len() - 1] == s.last());
        assert(!head.contains(sep)) by {
            if head.contains(sep) {
                let k = choose|k: int| 0 <= k < head.len() && head[k] == sep;
                assert(s[k] == sep);
            }
        }
        lemma_split_single(head, sep);
        assert(head.push(s.last()) == s);
        assert(seq![head].drop_last().push(s) == seq![s]);
    } else {
        assert(s == Seq::<char>::empty());
    }
}

/// What stands behind the last separator is the last part.
pub proof fn lemma_split_last(a: Seq<char>, sep: char, b: Seq<char>)
    requires
        !b.contains(sep),
    ensures
        split_on(a.push(sep) + b, sep) == split_on(a, sep).push(b),
    decreases b.len(),
{
    let s = a.push(sep) + b;
    if b.len() == 0 {
        assert(s == a.push(sep));
        assert(s.drop_last() == a);
        assert(b == Seq::<char>::empty());
    } else {
        let head = b.drop_last();
        assert(b[b.len() - 1] == b.last());
        assert(!head.contains(sep)) by {
            if head.contains(sep) {
                let k = choose|k: int| 0 <= k < head.len() && head[k] == sep;
                assert(b[k] == sep);
            }
        }
        lemma_split_last(a, sep, head);
        assert(s.drop_last() == a.push(sep) + head);
        assert(head.push(b.last()) == b);
        assert(split_on(a, sep).push(head).drop_last().push(b) == split_on(a, sep).push(b));
    }
}

/// The text before a cut has as many bytes as the place of the cut says.
pub proof fn lemma_cut_len(s: Seq<char>, n: int)
    requires
        cuttable(s, n),
        0 <= n <= byte_len(s),
    ensures
        byte_len(before_byte(s, n)) == n,
{
    let bytes = vstd::utf8::encode_utf8(s);
    vstd::utf8::encode_utf8_valid_utf8(s);
    vstd::utf8::valid_utf8_split(bytes, n);
    vstd::utf8::decode_utf8_encode_utf8(bytes.subrange(0, n));
}

/// Whatever stands around a text, the whole contains it.
pub proof fn law_text_contains_its_parts(a: Seq<char>, needle: Seq<char>, b: Seq<char>)
    ensures
        contains_text(a + needle + b, needle),
{
    let from = a.len() as int;
    assert((a + needle + b).subrange(from, from + needle.len()) == needle);
    assert(occurs_at(a + needle + b, needle, from));
}

/// What is contained in a text is a part of it, with something in front and something behind.
pub proof fn law_contained_text_is_a_part(hay: Seq<char>, needle: Seq<char>)
    requires
        contains_text(hay, needle),
    ensures
        exists|a: Seq<char>, b: Seq<char>| hay == #[trigger] (a + needle + b),
{
    let i = choose|i: int| occurs_at(hay, needle, i);
    assert(hay == hay.take(i) + needle + hay.skip(i + needle.len()));
}

/// A search returns a place exactly if the text stands there and at no place in front of it, and
/// none exactly if the text is not contained.
pub proof fn law_search_finds_the_first_place(hay: Seq<char>, needle: Seq<char>, i: int)
    ensures
        find_text(hay, needle) == Some(i) <==> {
            &&& 0 <= i <= hay.len() - needle.len()
            &&& hay.subrange(i, i + needle.len()) == needle
            &&& forall|j: int|
                0 <= j < i ==> #[trigger] hay.subrange(j, j + needle.len()) != needle
        },
        find_text(hay, needle) is None <==> !contains_text(hay, needle),
{
    lemma_find_from(hay, needle, 0);
    lemma_find_iff_contains(hay, needle);
    if let Some(k) = find_text(hay, needle) {
        assert(occurs_at(hay, needle, k));
        assert forall|j: int| 0 <= j < k implies #[trigger] hay.subrange(j, j + needle.len())
            != needle by {
            assert(!occurs_at(hay, needle, j));
        }
        if 0 <= i <= hay.len() - needle.len() && hay.subrange(i, i + needle.len()) == needle {
            assert(occurs_at(hay, needle, i));
            if k < i {
                assert(hay.subrange(k, k + needle.len()) == needle);
            }
        }
    } else if 0 <= i <= hay.len() - needle.len() && hay.subrange(i, i + needle.len()) == needle {
        assert(occurs_at(hay, needle, i));
    }
}

proof fn lemma_strip_start(a: Seq<char>, rest: Seq<char>, class: CharClass)
    requires
        forall|i: int| 0 <= i < a.len() ==> class.has(#[trigger] a[i]),
        rest.len() > 0 ==> !class.has(rest[0]),
    ensures
        strip_start(a + rest, class) == rest,
    decreases a.len(),
{
    if a.len() > 0 {
        assert((a + rest).first() == a[0]);
        assert((a + rest).drop_first() == a.drop_first() + rest);
        lemma_strip_start(a.drop_first(), rest, class);
    } else {
        assert(a + rest == rest);
    }
}

proof fn lemma_strip_end(rest: Seq<char>, b: Seq<char>, class: CharClass)
    requires
        forall|i: int| 0 <= i < b.len() ==> class.has(#[trigger] b[i]),
        rest.len() > 0 ==> !class.has(rest.last()),
    ensures
        strip_end(rest + b, class) == rest,
    decreases b.len(),
{
    if b.len() > 0 {
        assert((rest + b).last() == b[b.len() - 1]);
        assert((rest + b).drop_last() == rest + b.drop_last());
        lemma_strip_end(rest, b.drop_last(), class);
    } else {
        assert(rest + b == rest);
    }
}

/// Of a text with characters of the class around it, which neither begins nor ends with one,
/// exactly that text is left; of such characters alone nothing is.
pub proof fn law_stripping_leaves_the_middle(
    a: Seq<char>,
    middle: Seq<char>,
    b: Seq<char>,
    class: CharClass,
)
    requires
        forall|i: int| 0 <= i < a.len() ==> class.has(#[trigger] a[i]),
        forall|i: int| 0 <= i < b.len() ==> class.has(#[trigger] b[i]),
        middle.len() > 0 ==> !class.has(middle[0]) && !class.has(middle.last()),
    ensures
        stripped(a + middle + b, class) == middle,
{
    if middle.len() > 0 {
        assert(a + middle + b == a + (middle + b));
        lemma_strip_start(a, middle + b, class);
        lemma_strip_end(middle, b, class);
    } else {
        let all = a + middle + b;
        assert forall|i: int| 0 <= i < all.len() implies class.has(#[trigger] all[i]) by {
            if i < a.len() {
                assert(all[i] == a[i]);
            } else {
                assert(all[i] == b[i - a.len()]);
            }
        }
        assert(all + Seq::<char>::empty() == all);
        lemma_strip_start(all, Seq::empty(), class);
        assert(strip_end(Seq::<char>::empty(), class) == middle);
    }
}

/// Joining two lists one after the other is joining each, with the separator between them; one
/// text joined is that text, and no text is the empty one.
pub proof fn law_joining_lists(a: Seq<Seq<char>>, b: Seq<Seq<char>>, sep: Seq<char>)
    ensures
        a.len() > 0 && b.len() > 0 ==> joined(a + b, sep) == joined(a, sep) + sep + joined(b, sep),
        a.len() == 1 ==> joined(a, sep) == a[0],
        a.len() == 0 ==> joined(a, sep) == Seq::<char>::empty(),
    decreases b.len(),
{
    if a.len() > 0 && b.len() > 0 {
        let c = a + b;
        assert(c.last() == b.last());
        assert(c.drop_last() == a + b.drop_last());
        if b.len() == 1 {
            assert(a + b.drop_last() == a);
        } else {
            law_joining_lists(a, b.drop_last(), sep);
        }
        assert(joined(c, sep) == joined(a, sep) + sep + joined(b, sep));
    }
}

/// The parts of a text, joined by the separator, are the text again, and no part holds one.
pub proof fn law_split_parts_make_up_the_text(s: Seq<char>, sep: char)
    ensures
        split_on(s, sep).len() > 0,
        joined(split_on(s, sep), seq![sep]) == s,
        forall|i: int| 0 <= i < split_on(s, sep).len() ==> !(#[trigger] split_on(s, sep)[i]).contains(sep),
    decreases s.len(),
{
    let parts = split_on(s, sep);
    if s.len() == 0 {
        assert(parts[0] == s);
    } else {
        let head = s.drop_last();
        let before = split_on(head, sep);
        law_split_parts_make_up_the_text(head, sep);
        assert(head.push(s.last()) == s);
        if s.last() == sep {
            assert(parts.drop_last() == before);
            assert(joined(before, seq![sep]) + seq![sep] + Seq::<char>::empty() == s);
            assert forall|i: int| 0 <= i < parts.len() implies !(#[trigger] parts[i]).contains(sep) by {
                if i < before.len() {
                    assert(parts[i] == before[i]);
                }
            }
        } else {
            let last = before.last().push(s.last());
            assert(parts.drop_last() == before.drop_last());
            assert(parts.last() == last);
            if before.len() == 1 {
                assert(before[0] == head);
            } else {
                assert(joined(before.drop_last(), seq![sep]) + seq![sep] + last == (joined(
                    before.drop_last(),
                    seq![sep],
                ) + seq![sep] + before.last()).push(s.last()));
            }
            assert forall|i: int| 0 <= i < parts.len() implies !(#[trigger] parts[i]).contains(sep) by {
                if i < before.len() - 1 {
                    assert(parts[i] == before[i]);
                } else {
                    assert(!before[before.len() - 1].contains(sep));
                    if last.contains(sep) {
                        let k = choose|k: int| 0 <= k < last.len() && last[k] == sep;
                        assert(before.last()[k] == sep);
                    }
                }
            }
        }
    }
}

/// The texts of a list are those of its strings, one for each, in order.
pub proof fn law_texts_are_those_of_the_strings(list: Seq<String>, i: int)
    requires
        0 <= i < list.len(),
    ensures
        texts(list).len() == list.len(),
        texts(list)[i] == list[i]@,
{
}

} // verus!
