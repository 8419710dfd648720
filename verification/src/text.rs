//! Text as sequences of characters: the string operations that the library
//! needs, each with a statement over `Seq<char>`.

use vstd::prelude::*;

verus! {

/// `String::push` appends one character.
pub assume_specification[ String::push ](s: &mut String, c: char)
    ensures
        final(s)@ == old(s)@.push(c),
;

/// The characters with the Unicode property `White_Space`.
pub open spec fn is_space(c: char) -> bool {
    let n = c as u32;
    ||| 0x09 <= n <= 0x0d
    ||| n == 0x20
    ||| n == 0x85
    ||| n == 0xa0
    ||| n == 0x1680
    ||| 0x2000 <= n <= 0x200a
    ||| n == 0x2028
    ||| n == 0x2029
    ||| n == 0x202f
    ||| n == 0x205f
    ||| n == 0x3000
}

/// The ASCII lower case of a character; other characters are kept.
pub open spec fn lower_char(c: char) -> char {
    if 'A' <= c <= 'Z' {
        ((c as u32) + 32) as char
    } else {
        c
    }
}

/// A text with every ASCII upper case letter replaced by its lower case.
pub open spec fn lowered(s: Seq<char>) -> Seq<char> {
    Seq::new(s.len(), |i: int| lower_char(s[i]))
}

/// A text without its leading white space.
pub open spec fn trimmed_start(s: Seq<char>) -> Seq<char>
    decreases s.len(),
{
    if s.len() > 0 && is_space(s[0]) {
        trimmed_start(s.drop_first())
    } else {
        s
    }
}

/// A text without its trailing white space.
pub open spec fn trimmed_end(s: Seq<char>) -> Seq<char>
    decreases s.len(),
{
    if s.len() > 0 && is_space(s.last()) {
        trimmed_end(s.drop_last())
    } else {
        s
    }
}

/// A text without white space at either end.
pub open spec fn trimmed(s: Seq<char>) -> Seq<char> {
    trimmed_end(trimmed_start(s))
}

proof fn lemma_trimmed_start_shorter(s: Seq<char>)
    ensures
        trimmed_start(s).len() <= s.len(),
    decreases s.len(),
{
    if s.len() > 0 && is_space(s[0]) {
        lemma_trimmed_start_shorter(s.drop_first());
    }
}

proof fn lemma_trimmed_end_shorter(s: Seq<char>)
    ensures
        trimmed_end(s).len() <= s.len(),
    decreases s.len(),
{
    if s.len() > 0 && is_space(s.last()) {
        lemma_trimmed_end_shorter(s.drop_last());
    }
}

/// A text is not shorter than what is left of it without the space around it.
pub proof fn lemma_trimmed_shorter(s: Seq<char>)
    ensures
        trimmed(s).len() <= s.len(),
{
    lemma_trimmed_start_shorter(s);
    lemma_trimmed_end_shorter(trimmed_start(s));
}

/// Whether `part` stands in `s` at position `at`.
pub open spec fn stands_at(s: Seq<char>, part: Seq<char>, at: int) -> bool {
    0 <= at && at + part.len() <= s.len() && s.subrange(at, at + part.len()) == part
}

/// Whether `part` stands somewhere in `s`.
pub open spec fn has_part(s: Seq<char>, part: Seq<char>) -> bool {
    exists|at: int| #[trigger] stands_at(s, part, at)
}

/// The decimal digit of a number below ten.
pub open spec fn digit_char(d: nat) -> char {
    (('0' as u32) + d) as char
}

/// A number in decimal notation, without leading zeros.
pub open spec fn decimal(n: nat) -> Seq<char>
    decreases n,
{
    if n < 10 {
        seq![digit_char(n)]
    } else {
        decimal(n / 10).push(digit_char(n % 10))
    }
}

/// Whether `a` comes before `b` in the order of their characters.
pub open spec fn text_less(a: Seq<char>, b: Seq<char>) -> bool
    decreases a.len(),
{
    if b.len() == 0 {
        false
    } else if a.len() == 0 {
        true
    } else if a[0] != b[0] {
        (a[0] as int) < (b[0] as int)
    } else {
        text_less(a.drop_first(), b.drop_first())
    }
}

pub fn is_space_char(c: char) -> (r: bool)
    ensures
        r == is_space(c),
{
    let n: u32 = c as u32;
    (0x09 <= n && n <= 0x0d) || n == 0x20 || n == 0x85 || n == 0xa0 || n == 0x1680 || (0x2000 <= n
        && n <= 0x200a) || n == 0x2028 || n == 0x2029 || n == 0x202f || n == 0x205f || n == 0x3000
}

pub fn lower_of(c: char) -> (r: char)
    ensures
        r == lower_char(c),
{
    if 'A' <= c && c <= 'Z' {
        let b: u8 = c as u8;
        (b + 32) as char
    } else {
        c
    }
}

/// The characters of a text.
pub fn to_chars(s: &str) -> (r: Vec<char>)
    ensures
        r@ == s@,
{
    let mut out: Vec<char> = Vec::new();
    for c in it: s.chars()
        invariant
            it.seq() == s@,
            out@ == s@.take(it.index() as int),
    {
        out.push(c);
    }
    out
}

/// A copy of a text.
pub fn owned(s: &str) -> (r: String)
    ensures
        r@ == s@,
{
    s.to_owned()
}

/// Two texts, one behind the other.
pub fn join2(a: &str, b: &str) -> (r: String)
    ensures
        r@ == a@ + b@,
{
    let mut out = a.to_owned();
    out.append(b);
    out
}

/// Three texts, one behind the other.
pub fn join3(a: &str, b: &str, c: &str) -> (r: String)
    ensures
        r@ == a@ + b@ + c@,
{
    let mut out = a.to_owned();
    out.append(b);
    out.append(c);
    out
}

/// Four texts, one behind the other.
pub fn join4(a: &str, b: &str, c: &str, d: &str) -> (r: String)
    ensures
        r@ == a@ + b@ + c@ + d@,
{
    let mut out = a.to_owned();
    out.append(b);
    out.append(c);
    out.append(d);
    out
}

/// Five texts, one behind the other.
pub fn join5(a: &str, b: &str, c: &str, d: &str, e: &str) -> (r: String)
    ensures
        r@ == a@ + b@ + c@ + d@ + e@,
{
    let mut out = a.to_owned();
    out.append(b);
    out.append(c);
    out.append(d);
    out.append(e);
    out
}

/// A number in decimal notation.
pub fn decimal_text(n: u64) -> (r: String)
    ensures
        r@ == decimal(n as nat),
    decreases n,
{
    let d: u8 = (n % 10) as u8;
    let c: char = (48u8 + d) as char;
    if n < 10 {
        let mut out = String::new();
        out.push(c);
        assert(out@ =~= seq![digit_char(n as nat)]);
        out
    } else {
        let mut out = decimal_text(n / 10);
        out.push(c);
        out
    }
}

/// A size in decimal notation.
pub fn size_text(n: usize) -> (r: String)
    ensures
        r@ == decimal(n as nat),
{
    decimal_text(n as u64)
}

/// A pair of sizes in the notation `(2, 3)`.
pub open spec fn pair_notation(p: (usize, usize)) -> Seq<char> {
    "("@ + decimal(p.0 as nat) + ", "@ + decimal(p.1 as nat) + ")"@
}

pub fn pair_text(p: (usize, usize)) -> (r: String)
    ensures
        r@ == pair_notation(p),
{
    let a = size_text(p.0);
    let b = size_text(p.1);
    join5("(", a.as_str(), ", ", b.as_str(), ")")
}

/// Sizes separated by a comma and a space.
pub open spec fn comma_separated(sizes: Seq<usize>) -> Seq<char>
    decreases sizes.len(),
{
    if sizes.len() == 0 {
        Seq::empty()
    } else if sizes.len() == 1 {
        decimal(sizes[0] as nat)
    } else {
        comma_separated(sizes.drop_last()) + ", "@ + decimal(sizes.last() as nat)
    }
}

/// A list of sizes in the notation `[2, 3, 4]`.
pub open spec fn list_notation(sizes: Seq<usize>) -> Seq<char> {
    "["@ + comma_separated(sizes) + "]"@
}

pub fn list_text(sizes: &[usize]) -> (r: String)
    ensures
        r@ == list_notation(sizes@),
{
    let mut inner = String::new();
    let mut i: usize = 0;
    while i < sizes.len()
        invariant
            i <= sizes.len(),
            inner@ == comma_separated(sizes@.take(i as int)),
        decreases sizes.len() - i,
    {
        let d = size_text(sizes[i]);
        proof {
            assert(sizes@.take(i + 1).drop_last() =~= sizes@.take(i as int));
        }
        if i > 0 {
            inner.append(", ");
        }
        inner.append(d.as_str());
        proof {
            if i == 0 {
                assert(inner@ =~= decimal(sizes@[0] as nat));
            }
        }
        i = i + 1;
    }
    assert(sizes@.take(sizes@.len() as int) =~= sizes@);
    join3("[", inner.as_str(), "]")
}

/// Whether two character lists are the same text.
pub fn same_chars(a: &Vec<char>, b: &Vec<char>) -> (r: bool)
    ensures
        r == (a@ == b@),
{
    if a.len() != b.len() {
        return false;
    }
    let mut i: usize = 0;
    while i < a.len()
        invariant
            i <= a.len(),
            a.len() == b.len(),
            a@.take(i as int) =~= b@.take(i as int),
        decreases a.len() - i,
    {
        if a[i] != b[i] {
            assert(a@[i as int] != b@[i as int]);
            return false;
        }
        assert(a@.take(i + 1) =~= a@.take(i as int).push(a@[i as int]));
        assert(b@.take(i + 1) =~= b@.take(i as int).push(b@[i as int]));
        i = i + 1;
    }
    assert(a@ =~= a@.take(a@.len() as int));
    assert(b@ =~= b@.take(b@.len() as int));
    true
}

/// Whether two texts are the same.
pub fn same_text(a: &str, b: &str) -> (r: bool)
    ensures
        r == (a@ == b@),
{
    let x = to_chars(a);
    let y = to_chars(b);
    same_chars(&x, &y)
}

/// The ASCII lower case of a text.
pub fn lower_text(s: &str) -> (r: String)
    ensures
        r@ == lowered(s@),
{
    let chars = to_chars(s);
    let mut out = String::new();
    let mut i: usize = 0;
    while i < chars.len()
        invariant
            i <= chars.len(),
            chars@ == s@,
            out@ == lowered(s@).take(i as int),
        decreases chars.len() - i,
    {
        out.push(lower_of(chars[i]));
        assert(lowered(s@).take(i + 1) =~= lowered(s@).take(i as int).push(lowered(s@)[i as int]));
        i = i + 1;
    }
    assert(lowered(s@).take(s@.len() as int) =~= lowered(s@));
    out
}

/// A text without white space at either end.
pub fn trim_text(s: &str) -> (r: String)
    ensures
        r@ == trimmed(s@),
{
    let chars = to_chars(s);
    let mut start: usize = 0;
    assert(chars@.skip(0) =~= chars@);
    while start < chars.len() && is_space_char(chars[start])
        invariant
            start <= chars.len(),
            trimmed_start(chars@.skip(start as int)) == trimmed_start(chars@),
        decreases chars.len() - start,
    {
        assert(chars@.skip(start as int).drop_first() =~= chars@.skip(start + 1));
        start = start + 1;
    }
    assert(trimmed_start(chars@) == chars@.skip(start as int));
    let mut end: usize = chars.len();
    assert(chars@.subrange(start as int, end as int) =~= chars@.skip(start as int));
    while start < end && is_space_char(chars[end - 1])
        invariant
            start <= end <= chars.len(),
            trimmed_end(chars@.subrange(start as int, end as int)) == trimmed(chars@),
        decreases end - start,
    {
        assert(chars@.subrange(start as int, end as int).drop_last() =~= chars@.subrange(
            start as int,
            end - 1,
        ));
        end = end - 1;
    }
    let mut out = String::new();
    let mut i: usize = start;
    while i < end
        invariant
            start <= i <= end <= chars.len(),
            out@ == chars@.subrange(start as int, i as int),
        decreases end - i,
    {
        out.push(chars[i]);
        assert(chars@.subrange(start as int, i + 1) =~= chars@.subrange(start as int, i as int).push(
            chars@[i as int],
        ));
        i = i + 1;
    }
    out
}

/// Whether `part` stands in `s` at position `at`.
pub fn part_at(s: &Vec<char>, part: &Vec<char>, at: usize) -> (r: bool)
    ensures
        r == stands_at(s@, part@, at as int),
{
    if at > s.len() || s.len() - at < part.len() {
        return false;
    }
    let mut i: usize = 0;
    while i < part.len()
        invariant
            i <= part.len(),
            at + part.len() <= s.len(),
            forall|j: int| 0 <= j < i ==> s@[at + j] == part@[j],
        decreases part.len() - i,
    {
        if s[at + i] != part[i] {
            assert(s@.subrange(at as int, at + part@.len())[i as int] == s@[at + i]);
            return false;
        }
        i = i + 1;
    }
    assert(s@.subrange(at as int, at + part@.len()) =~= part@);
    true
}

/// Whether `part` stands somewhere in `s`.
pub fn contains_text(s: &str, part: &str) -> (r: bool)
    ensures
        r == has_part(s@, part@),
{
    let chars = to_chars(s);
    let wanted = to_chars(part);
    let mut at: usize = 0;
    while at < chars.len()
        invariant
            at <= chars.len(),
            chars@ == s@,
            wanted@ == part@,
            forall|k: int| 0 <= k < at ==> !stands_at(s@, part@, k),
        decreases chars.len() - at,
    {
        if part_at(&chars, &wanted, at) {
            return true;
        }
        at = at + 1;
    }
    let last = part_at(&chars, &wanted, at);
    assert(forall|k: int| k > s@.len() ==> !stands_at(s@, part@, k));
    last
}

/// Whether `a` comes before `b` in the order of their characters.
pub fn text_before(a: &str, b: &str) -> (r: bool)
    ensures
        r == text_less(a@, b@),
{
    let x = to_chars(a);
    let y = to_chars(b);
    let mut i: usize = 0;
    assert(x@.skip(0) =~= x@);
    assert(y@.skip(0) =~= y@);
    while i < x.len() && i < y.len() && x[i] == y[i]
        invariant
            i <= x.len(),
            i <= y.len(),
            text_less(x@, y@) == text_less(x@.skip(i as int), y@.skip(i as int)),
        decreases x.len() - i,
    {
        assert(x@.skip(i as int).drop_first() =~= x@.skip(i + 1));
        assert(y@.skip(i as int).drop_first() =~= y@.skip(i + 1));
        i = i + 1;
    }
    if i == y.len() {
        false
    } else if i == x.len() {
        true
    } else {
        x[i] < y[i]
    }
}

/// A list of strings as a list of texts.
pub open spec fn texts(list: Seq<String>) -> Seq<Seq<char>> {
    list.map_values(|s: String| s@)
}

/// The position of the first occurrence of `name`, or the length of the list.
pub open spec fn position_in(list: Seq<Seq<char>>, name: Seq<char>) -> nat
    decreases list.len(),
{
    if list.len() == 0 || list[0] == name {
        0
    } else {
        1 + position_in(list.drop_first(), name)
    }
}

/// What `position_in` finds: no earlier entry is the name, and the entry at that
/// position is.
pub proof fn lemma_position_in(list: Seq<Seq<char>>, name: Seq<char>)
    ensures
        position_in(list, name) <= list.len(),
        forall|j: int| 0 <= j < position_in(list, name) ==> list[j] != name,
        position_in(list, name) < list.len() ==> list[position_in(list, name) as int] == name,
        position_in(list, name) < list.len() <==> list.contains(name),
    decreases list.len(),
{
    if list.len() > 0 && list[0] != name {
        let rest = list.drop_first();
        lemma_position_in(rest, name);
        assert forall|j: int| 0 <= j < position_in(list, name) implies list[j] != name by {
            if j > 0 {
                assert(rest[j - 1] != name);
            }
        }
        if list.contains(name) {
            let j = choose|j: int| 0 <= j < list.len() && list[j] == name;
            assert(rest[j - 1] == name);
        }
    } else if list.len() > 0 {
        assert(list[0] == name);
    }
}

/// The position of the first occurrence of `name` in a list of strings.
pub fn position_of(list: &Vec<String>, name: &str) -> (r: Option<usize>)
    ensures
        r is Some <==> texts(list@).contains(name@),
        r is Some ==> r->Some_0 < list@.len() && r->Some_0 == position_in(texts(list@), name@),
{
    let mut i: usize = 0;
    proof {
        lemma_position_in(texts(list@), name@);
    }
    while i < list.len()
        invariant
            i <= list@.len(),
            forall|j: int| 0 <= j < i ==> texts(list@)[j] != name@,
        decreases list@.len() - i,
    {
        if same_text(list[i].as_str(), name) {
            proof {
                lemma_position_in(texts(list@), name@);
                assert(texts(list@)[i as int] == name@);
            }
            return Some(i);
        }
        i = i + 1;
    }
    None
}

/// A copy of a list of strings.
pub fn copy_texts(list: &Vec<String>) -> (r: Vec<String>)
    ensures
        texts(r@) == texts(list@),
{
    let mut out: Vec<String> = Vec::new();
    let mut i: usize = 0;
    while i < list.len()
        invariant
            i <= list@.len(),
            out@.len() == i,
            forall|j: int| 0 <= j < i ==> #[trigger] out@[j]@ == list@[j]@,
        decreases list@.len() - i,
    {
        out.push(list[i].clone());
        i = i + 1;
    }
    assert(texts(out@) =~= texts(list@));
    out
}

/// The order of texts is irreflexive.
pub proof fn lemma_text_less_irreflexive(a: Seq<char>)
    ensures
        !text_less(a, a),
    decreases a.len(),
{
    if a.len() > 0 {
        lemma_text_less_irreflexive(a.drop_first());
    }
}

/// The order of texts is transitive.
pub proof fn lemma_text_less_transitive(a: Seq<char>, b: Seq<char>, c: Seq<char>)
    requires
        text_less(a, b),
        text_less(b, c),
    ensures
        text_less(a, c),
    decreases a.len(),
{
    if a.len() > 0 && b.len() > 0 && c.len() > 0 && a[0] == b[0] && b[0] == c[0] {
        lemma_text_less_transitive(a.drop_first(), b.drop_first(), c.drop_first());
    }
}

/// Of two texts that differ, one comes before the other.
pub proof fn lemma_text_less_total(a: Seq<char>, b: Seq<char>)
    requires
        a != b,
    ensures
        text_less(a, b) || text_less(b, a),
    decreases a.len(),
{
    if a.len() > 0 && b.len() > 0 && a[0] == b[0] {
        if a.drop_first() == b.drop_first() {
            assert(a =~= seq![a[0]] + a.drop_first());
            assert(b =~= seq![b[0]] + b.drop_first());
            assert(false);
        }
        lemma_text_less_total(a.drop_first(), b.drop_first());
    } else if a.len() == 0 && b.len() == 0 {
        assert(a =~= b);
    }
}

/// The part of a text between two positions.
pub fn part_of(chars: &Vec<char>, from: usize, to: usize) -> (r: String)
    requires
        from <= to <= chars@.len(),
    ensures
        r@ == chars@.subrange(from as int, to as int),
{
    let mut out = String::new();
    let mut i: usize = from;
    while i < to
        invariant
            from <= i <= to,
            to <= chars@.len(),
            out@ == chars@.subrange(from as int, i as int),
        decreases to - i,
    {
        out.push(chars[i]);
        assert(out@ =~= chars@.subrange(from as int, i + 1));
        i = i + 1;
    }
    out
}

/// The first position of a character from `i` on, or the end of the text.
pub open spec fn char_position(s: Seq<char>, c: char, i: int) -> int
    decreases s.len() - i,
{
    if i >= s.len() || s[i] == c {
        i
    } else {
        char_position(s, c, i + 1)
    }
}

/// The first position of a character, or the end of the text.
pub fn find_char(chars: &Vec<char>, c: char) -> (r: usize)
    ensures
        r == char_position(chars@, c, 0),
        r <= chars@.len(),
        r < chars@.len() ==> chars@[r as int] == c,
{
    let mut i: usize = 0;
    while i < chars.len() && chars[i] != c
        invariant
            i <= chars@.len(),
            char_position(chars@, c, 0) == char_position(chars@, c, i as int),
        decreases chars@.len() - i,
    {
        i = i + 1;
    }
    i
}

/// The end of the word that begins at `i`: the next white space or the end of the text.
pub open spec fn word_end(s: Seq<char>, i: int) -> int
    decreases s.len() - i,
{
    if i >= s.len() || is_space(s[i]) {
        i
    } else {
        word_end(s, i + 1)
    }
}

proof fn lemma_word_end(s: Seq<char>, i: int)
    ensures
        word_end(s, i) >= i,
        i <= s.len() ==> word_end(s, i) <= s.len(),
    decreases s.len() - i,
{
    if i < s.len() && !is_space(s[i]) {
        lemma_word_end(s, i + 1);
    }
}

/// The words of a text from `i` on, which white space separates.
pub open spec fn words_from(s: Seq<char>, i: int) -> Seq<Seq<char>>
    decreases s.len() - i,
    via words_from_end
{
    if i >= s.len() {
        Seq::empty()
    } else if is_space(s[i]) {
        words_from(s, i + 1)
    } else {
        seq![s.subrange(i, word_end(s, i))] + words_from(s, word_end(s, i))
    }
}

#[via_fn]
proof fn words_from_end(s: Seq<char>, i: int) {
    if i < s.len() && !is_space(s[i]) {
        lemma_word_end(s, i + 1);
    }
}

/// The words of a text.
pub open spec fn words(s: Seq<char>) -> Seq<Seq<char>> {
    words_from(s, 0)
}

pub fn split_words(s: &str) -> (r: Vec<String>)
    ensures
        texts(r@) == words(s@),
{
    let chars = to_chars(s);
    let ghost t = chars@;
    let mut out: Vec<String> = Vec::new();
    let mut i: usize = 0;
    assert(texts(out@) + words_from(t, 0) =~= words_from(t, 0));
    while i < chars.len()
        invariant
            i <= t.len(),
            t == chars@,
            words(t) == texts(out@) + words_from(t, i as int),
        decreases t.len() - i,
    {
        if is_space_char(chars[i]) {
            i = i + 1;
        } else {
            let mut e: usize = i + 1;
            proof {
                lemma_word_end(t, i + 1);
            }
            while e < chars.len() && !is_space_char(chars[e])
                invariant
                    i < e <= t.len(),
                    t == chars@,
                    word_end(t, i as int) == word_end(t, e as int),
                decreases t.len() - e,
            {
                e = e + 1;
            }
            let word = part_of(&chars, i, e);
            let ghost before = out@;
            out.push(word);
            proof {
                assert(texts(out@) =~= texts(before) + seq![t.subrange(i as int, e as int)]);
                assert(texts(out@) + words_from(t, e as int) =~= texts(before) + words_from(
                    t,
                    i as int,
                ));
            }
            i = e;
        }
    }
    assert(texts(out@) + words_from(t, t.len() as int) =~= texts(out@));
    out
}

/// Whether all characters of a text are ASCII characters.
pub open spec fn ascii_text(s: Seq<char>) -> bool {
    forall|i: int| 0 <= i < s.len() ==> (#[trigger] s[i] as u32) < 128
}

/// The ASCII upper case of a character; other characters are kept.
pub open spec fn upper_char(c: char) -> char {
    if 'a' <= c <= 'z' {
        ((c as u32) - 32) as char
    } else {
        c
    }
}

/// A text with every ASCII lower case letter replaced by its upper case.
pub open spec fn raised(s: Seq<char>) -> Seq<char> {
    Seq::new(s.len(), |i: int| upper_char(s[i]))
}

/// The upper case of a text by the rules of Unicode.
pub uninterp spec fn upper_case(s: Seq<char>) -> Seq<char>;

/// The lower case of a text by the rules of Unicode.
pub uninterp spec fn lower_case(s: Seq<char>) -> Seq<char>;

/// `str::to_uppercase` gives the upper case of a text. Of ASCII text it changes the
/// letters from `a` to `z` only, to those from `A` to `Z`.
#[verifier::external_body]
pub(crate) fn upper_case_of(s: &str) -> (r: String)
    ensures
        r@ == upper_case(s@),
        ascii_text(s@) ==> r@ == raised(s@),
{
    s.to_uppercase()
}

/// `str::to_lowercase` gives the lower case of a text. Of ASCII text it changes the
/// letters from `A` to `Z` only, to those from `a` to `z`.
#[verifier::external_body]
pub(crate) fn lower_case_of(s: &str) -> (r: String)
    ensures
        r@ == lower_case(s@),
        ascii_text(s@) ==> r@ == lowered(s@),
{
    s.to_lowercase()
}

/// Whether a text is one word.
pub open spec fn is_word(s: Seq<char>) -> bool {
    s.len() > 0 && forall|i: int| 0 <= i < s.len() ==> !is_space(#[trigger] s[i])
}

/// A word reaches up to the end of a text without white space.
proof fn lemma_word_end_at_end(s: Seq<char>, i: int)
    requires
        0 <= i <= s.len(),
        forall|j: int| i <= j < s.len() ==> !is_space(#[trigger] s[j]),
    ensures
        word_end(s, i) == s.len(),
    decreases s.len() - i,
{
    if i < s.len() {
        lemma_word_end_at_end(s, i + 1);
    }
}

/// What follows the space behind a text does not change where its words end.
proof fn lemma_word_end_before_space(a: Seq<char>, s: Seq<char>, i: int)
    requires
        0 <= i <= a.len() < s.len(),
        forall|j: int| 0 <= j < a.len() ==> s[j] == #[trigger] a[j],
        is_space(s[a.len() as int]),
    ensures
        word_end(s, i) == word_end(a, i),
    decreases a.len() - i,
{
    if i < a.len() {
        assert(s[i] == a[i]);
        lemma_word_end_before_space(a, s, i + 1);
    }
}

/// The words of a text behind which a space and a word stand.
proof fn lemma_words_join_from(a: Seq<char>, b: Seq<char>, i: int)
    requires
        is_word(b),
        0 <= i <= a.len(),
    ensures
        words_from(a + " "@ + b, i) == words_from(a, i).push(b),
    decreases a.len() - i,
{
    reveal_strlit(" ");
    let s = a + " "@ + b;
    let n = a.len() as int;
    assert(s.len() == n + 1 + b.len());
    assert(s[n] == ' ');
    assert forall|j: int| 0 <= j < b.len() implies s[n + 1 + j] == #[trigger] b[j] by {}
    assert forall|j: int| 0 <= j < n implies s[j] == #[trigger] a[j] by {}
    if i == n {
        assert forall|j: int| n + 1 <= j < s.len() implies !is_space(#[trigger] s[j]) by {
            assert(s[j] == b[j - n - 1]);
        }
        lemma_word_end_at_end(s, n + 1);
        assert(s.subrange(n + 1, s.len() as int) =~= b);
        assert(words_from(s, s.len() as int) =~= Seq::<Seq<char>>::empty());
        assert(words_from(s, n + 1) =~= seq![b]);
        assert(words_from(s, n) == words_from(s, n + 1));
        assert(words_from(a, n) =~= Seq::<Seq<char>>::empty());
        assert(seq![b] =~= Seq::<Seq<char>>::empty().push(b));
    } else if is_space(a[i]) {
        lemma_words_join_from(a, b, i + 1);
    } else {
        lemma_word_end_before_space(a, s, i);
        lemma_word_end(a, i);
        lemma_word_end(a, i + 1);
        let e = word_end(a, i);
        assert(s.subrange(i, e) =~= a.subrange(i, e));
        lemma_words_join_from(a, b, e);
        assert(words_from(s, i) == seq![s.subrange(i, e)] + words_from(s, e));
        assert(words_from(a, i) == seq![a.subrange(i, e)] + words_from(a, e));
        assert(seq![a.subrange(i, e)] + words_from(a, e).push(b) =~= (seq![a.subrange(i, e)]
            + words_from(a, e)).push(b));
    }
}

/// A word behind a text and a space is one more word.
pub proof fn lemma_words_join(a: Seq<char>, b: Seq<char>)
    requires
        is_word(b),
    ensures
        words(a + " "@ + b) == words(a).push(b),
{
    lemma_words_join_from(a, b, 0);
}

/// A word is the only word in it.
pub proof fn lemma_words_of_word(b: Seq<char>)
    requires
        is_word(b),
    ensures
        words(b) == seq![b],
{
    lemma_word_end_at_end(b, 0);
    assert(b.subrange(0, b.len() as int) =~= b);
    assert(words_from(b, b.len() as int) =~= Seq::<Seq<char>>::empty());
    assert(!is_space(b[0]));
    assert(words(b) =~= seq![b]);
}

/// A text that begins and ends with no white space is not trimmed.
pub proof fn lemma_trimmed_same(s: Seq<char>)
    requires
        s.len() > 0,
        !is_space(s[0]),
        !is_space(s.last()),
    ensures
        trimmed(s) == s,
{
}

/// The first position of a character behind a text that does not hold it.
pub proof fn lemma_char_position(a: Seq<char>, s: Seq<char>, c: char, i: int)
    requires
        0 <= i <= a.len() <= s.len(),
        forall|j: int| 0 <= j < a.len() ==> s[j] == #[trigger] a[j] && a[j] != c,
        s.len() == a.len() || s[a.len() as int] == c,
    ensures
        char_position(s, c, i) == a.len(),
    decreases a.len() - i,
{
    if i < a.len() {
        assert(s[i] == a[i] && a[i] != c);
        lemma_char_position(a, s, c, i + 1);
    }
}

/// What is split off a text is made of words.
pub proof fn lemma_words_are_words(s: Seq<char>, i: int)
    requires
        0 <= i,
    ensures
        forall|j: int| 0 <= j < words_from(s, i).len() ==> is_word(#[trigger] words_from(s, i)[j]),
    decreases s.len() - i,
{
    if i < s.len() {
        if is_space(s[i]) {
            lemma_words_are_words(s, i + 1);
            assert(words_from(s, i) == words_from(s, i + 1));
        } else {
            lemma_word_end(s, i);
            lemma_word_end(s, i + 1);
            lemma_word_is_word(s, i);
            let e = word_end(s, i);
            assert(e > i);
            lemma_words_are_words(s, e);
            let word = s.subrange(i, e);
            assert forall|j: int| 0 <= j < word.len() implies !is_space(#[trigger] word[j]) by {
                assert(word[j] == s[i + j]);
            }
            assert forall|j: int| 0 <= j < words_from(s, i).len() implies is_word(
                #[trigger] words_from(s, i)[j],
            ) by {
                if j > 0 {
                    assert(words_from(s, i)[j] == words_from(s, e)[j - 1]);
                }
            }
        }
    } else {
        assert(words_from(s, i) =~= Seq::<Seq<char>>::empty());
    }
}

/// No white space stands in a text up to the end of its word.
proof fn lemma_word_is_word(s: Seq<char>, i: int)
    requires
        0 <= i <= s.len(),
    ensures
        forall|j: int| i <= j < word_end(s, i) ==> !is_space(#[trigger] s[j]),
    decreases s.len() - i,
{
    if i < s.len() && !is_space(s[i]) {
        lemma_word_is_word(s, i + 1);
    }
}

/// The first position of a character: it does not stand before it.
pub proof fn lemma_char_position_first(s: Seq<char>, c: char, i: int)
    requires
        0 <= i <= s.len(),
    ensures
        i <= char_position(s, c, i) <= s.len(),
        forall|j: int| i <= j < char_position(s, c, i) ==> #[trigger] s[j] != c,
    decreases s.len() - i,
{
    if i < s.len() && s[i] != c {
        lemma_char_position_first(s, c, i + 1);
    }
}

proof fn lemma_start_trimmed(s: Seq<char>) -> (n: int)
    ensures
        0 <= n <= s.len(),
        trimmed_start(s) == s.skip(n),
        forall|k: int| 0 <= k < n ==> is_space(#[trigger] s[k]),
        n < s.len() ==> !is_space(s[n]),
    decreases s.len(),
{
    if s.len() > 0 && is_space(s[0]) {
        let m = lemma_start_trimmed(s.drop_first());
        assert(s.drop_first().skip(m) =~= s.skip(m + 1));
        assert forall|k: int| 0 <= k < m + 1 implies is_space(#[trigger] s[k]) by {
            if k > 0 {
                assert(is_space(s.drop_first()[k - 1]));
            }
        }
        if m + 1 < s.len() {
            assert(s[m + 1] == s.drop_first()[m]);
        }
        m + 1
    } else {
        assert(s.skip(0) =~= s);
        0
    }
}

proof fn lemma_end_trimmed(s: Seq<char>) -> (n: int)
    ensures
        0 <= n <= s.len(),
        trimmed_end(s) == s.take(n),
        forall|k: int| n <= k < s.len() ==> is_space(#[trigger] s[k]),
        n > 0 ==> !is_space(s[n - 1]),
    decreases s.len(),
{
    if s.len() > 0 && is_space(s.last()) {
        let m = lemma_end_trimmed(s.drop_last());
        assert(s.drop_last().take(m) =~= s.take(m));
        assert forall|k: int| m <= k < s.len() implies is_space(#[trigger] s[k]) by {
            if k < s.len() - 1 {
                assert(is_space(s.drop_last()[k]));
            }
        }
        if m > 0 {
            assert(s[m - 1] == s.drop_last()[m - 1]);
        }
        m
    } else {
        assert(s.take(s.len() as int) =~= s);
        s.len() as int
    }
}

/// A trimmed text is the part of it between the white space at both ends, and neither begins nor
/// ends with white space.
pub proof fn lemma_trimmed_is_middle(s: Seq<char>) -> (ends: (int, int))
    ensures
        0 <= ends.0 <= ends.1 <= s.len(),
        trimmed(s) == s.subrange(ends.0, ends.1),
        forall|k: int| 0 <= k < ends.0 || ends.1 <= k < s.len() ==> is_space(#[trigger] s[k]),
        ends.0 < ends.1 ==> !is_space(s[ends.0]) && !is_space(s[ends.1 - 1]),
{
    let i = lemma_start_trimmed(s);
    let rest = s.skip(i);
    let n = lemma_end_trimmed(rest);
    assert(rest.take(n) =~= s.subrange(i, i + n));
    assert forall|k: int| 0 <= k < i || i + n <= k < s.len() implies is_space(#[trigger] s[k]) by {
        if k >= i {
            assert(rest[k - i] == s[k]);
        }
    }
    if n > 0 {
        assert(rest[n - 1] == s[i + n - 1]);
        assert(rest.len() > 0);
        if n == 1 {
            assert(s[i] == rest[0]);
        }
    }
    (i, i + n)
}

/// The number that decimal digits stand for.
pub open spec fn number_of_digits(s: Seq<char>) -> int
    decreases s.len(),
{
    if s.len() == 0 {
        0
    } else {
        10 * number_of_digits(s.drop_last()) + (s.last() as int - '0' as int)
    }
}

/// The decimal notation of a number is made of digits that stand for it, and begins with a zero
/// only where it is zero.
pub proof fn lemma_decimal_stands_for(n: nat)
    ensures
        number_of_digits(decimal(n)) == n,
        decimal(n).len() > 0,
        forall|i: int| 0 <= i < decimal(n).len() ==> '0' <= #[trigger] decimal(n)[i] <= '9',
        n > 0 ==> decimal(n)[0] != '0',
    decreases n,
{
    if n < 10 {
        let s = decimal(n);
        assert(s.drop_last() =~= Seq::<char>::empty());
        assert(s.last() as int == '0' as int + n);
        assert(number_of_digits(s.drop_last()) == 0);
    } else {
        lemma_decimal_stands_for(n / 10);
        let before = decimal(n / 10);
        let s = decimal(n);
        assert(s.drop_last() =~= before);
        assert(s.last() as int == '0' as int + n % 10);
        assert forall|i: int| 0 <= i < s.len() implies '0' <= #[trigger] s[i] <= '9' by {
            if i < before.len() {
                assert(s[i] == before[i]);
            }
        }
        assert(s[0] == before[0]);
    }
}

} // verus!
