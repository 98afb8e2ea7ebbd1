//! Reading the host's memory figures out of the text in which it gives them.

use vstd::prelude::*;
use vstd::slice::slice_subrange;
use vstd::string::*;

verus! {

/// Line feed.
pub const LF: char = '\n';

/// The plus sign.
pub const PLUS: char = '+';

/// The digit zero.
pub const ZERO: char = '0';

/// The digit nine.
pub const NINE: char = '9';

/// Bytes in a kibibyte.
pub const KIB: u64 = 1024;

/// White space as Unicode has it: the blank, the controls from tab to
/// carriage return, next line, and the spaces and separators beyond ASCII.
pub open spec fn is_space(c: char) -> bool {
    ||| c == ' '
    ||| '\u{9}' <= c <= '\u{d}'
    ||| c == '\u{85}'
    ||| c == '\u{a0}'
    ||| c == '\u{1680}'
    ||| '\u{2000}' <= c <= '\u{200a}'
    ||| c == '\u{2028}'
    ||| c == '\u{2029}'
    ||| c == '\u{202f}'
    ||| c == '\u{205f}'
    ||| c == '\u{3000}'
}

/// One of the ten digits of ASCII.
pub open spec fn is_digit(c: char) -> bool {
    ZERO <= c <= NINE
}

/// What a digit counts.
pub open spec fn digit_value(c: char) -> nat {
    (c as u32 - ZERO as u32) as nat
}

/// The number that a string of digits writes in base ten.
pub open spec fn decimal(digits: Seq<char>) -> nat
    decreases digits.len(),
{
    if digits.len() == 0 {
        0
    } else {
        decimal(digits.drop_last()) * 10 + digit_value(digits.last())
    }
}

pub open spec fn all_digits(s: Seq<char>) -> bool {
    forall|i: int| 0 <= i < s.len() ==> is_digit(#[trigger] s[i])
}

/// `token` without the plus sign that it may begin with.
pub open spec fn unsigned(token: Seq<char>) -> Seq<char> {
    if token.len() > 0 && token[0] == PLUS {
        token.drop_first()
    } else {
        token
    }
}

/// The number that `token` writes: digits, at least one, after at most one
/// plus sign.
pub open spec fn number(token: Seq<char>) -> Option<nat> {
    let digits = unsigned(token);
    if digits.len() > 0 && all_digits(digits) {
        Some(decimal(digits))
    } else {
        None
    }
}

/// The number that `token` writes, where it fits in 64 bits.
pub open spec fn number_u64(token: Seq<char>) -> Option<u64> {
    match number(token) {
        Some(n) => if n <= u64::MAX {
            Some(n as u64)
        } else {
            None
        },
        None => None,
    }
}

/// The number that `token` writes, times `unit`, where both fit in 64 bits.
pub open spec fn quantity(token: Seq<char>, unit: u64) -> Option<u64> {
    match number_u64(token) {
        Some(n) => if n * unit <= u64::MAX {
            Some((n * unit) as u64)
        } else {
            None
        },
        None => None,
    }
}

/// The first place from `i` on that holds no space; the end where all
/// are spaces.
pub open spec fn skip_spaces(s: Seq<char>, i: int) -> int
    decreases s.len() - i,
{
    if 0 <= i < s.len() && is_space(s[i]) {
        skip_spaces(s, i + 1)
    } else {
        i
    }
}

/// The first place from `i` on that holds a space; the end where none
/// does.
pub open spec fn skip_word(s: Seq<char>, i: int) -> int
    decreases s.len() - i,
{
    if 0 <= i < s.len() && !is_space(s[i]) {
        skip_word(s, i + 1)
    } else {
        i
    }
}

/// The first place from `i` on that holds a line feed; the end where none
/// does.
pub open spec fn line_end(s: Seq<char>, i: int) -> int
    decreases s.len() - i,
{
    if 0 <= i < s.len() && s[i] != LF {
        line_end(s, i + 1)
    } else {
        i
    }
}

/// The second of the words that spaces part `line` into.
pub open spec fn second_word(line: Seq<char>) -> Option<Seq<char>> {
    let first = skip_spaces(line, 0);
    let second = skip_spaces(line, skip_word(line, first));
    if second < line.len() {
        Some(line.subrange(second, skip_word(line, second)))
    } else {
        None
    }
}

/// `line` begins with `key`.
pub open spec fn starts_with(line: Seq<char>, key: Seq<char>) -> bool {
    key.len() <= line.len() && line.subrange(0, key.len() as int) == key
}

/// The figures so far, after `line` was read: a line that begins with
/// `MemTotal:` or `MemAvailable:` gives the total or the available memory
/// as its second word, in kibibytes; any other line changes nothing.
/// Nothing where such a line has no second word, or none that is a number
/// whose bytes fit in 64 bits.
pub open spec fn meminfo_line(so_far: (u64, u64), line: Seq<char>) -> Option<(u64, u64)> {
    if starts_with(line, "MemTotal:"@) {
        match second_word(line) {
            Some(word) => match quantity(word, KIB) {
                Some(bytes) => Some((bytes, so_far.1)),
                None => None,
            },
            None => None,
        }
    } else if starts_with(line, "MemAvailable:"@) {
        match second_word(line) {
            Some(word) => match quantity(word, KIB) {
                Some(bytes) => Some((so_far.0, bytes)),
                None => None,
            },
            None => None,
        }
    } else {
        Some(so_far)
    }
}

/// The figures after the lines of `text` from place `i` on were read, one
/// after the other.
pub open spec fn meminfo_from(text: Seq<char>, i: int, so_far: (u64, u64)) -> Option<(u64, u64)>
    decreases text.len() - i,
{
    if 0 <= i < text.len() {
        let end = line_end(text, i);
        match meminfo_line(so_far, text.subrange(i, end)) {
            Some(next) => if i <= end < text.len() {
                meminfo_from(text, end + 1, next)
            } else {
                Some(next)
            },
            None => None,
        }
    } else {
        Some(so_far)
    }
}

/// Total and available memory in bytes, as the lines of `text` give them;
/// zero for a figure that no line gives.
pub open spec fn meminfo(text: Seq<char>) -> Option<(u64, u64)> {
    meminfo_from(text, 0, (0, 0))
}

/// A string of digits writes no smaller a number than any of its beginnings.
pub proof fn lemma_decimal_grows(digits: Seq<char>, k: int)
    requires
        0 <= k <= digits.len(),
        all_digits(digits),
    ensures
        decimal(digits.subrange(0, k)) <= decimal(digits),
    decreases digits.len() - k,
{
    if k < digits.len() {
        let longer = digits.subrange(0, k + 1);
        assert(longer.drop_last() =~= digits.subrange(0, k));
        assert(is_digit(digits[k]));
        lemma_decimal_grows(digits, k + 1);
    } else {
        assert(digits.subrange(0, k) =~= digits);
    }
}

/// Whether `c` is white space.
pub fn white_space(c: char) -> (r: bool)
    ensures
        r == is_space(c),
{
    c == ' ' || ('\u{9}' <= c && c <= '\u{d}') || c == '\u{85}' || c == '\u{a0}' || c == '\u{1680}'
        || ('\u{2000}' <= c && c <= '\u{200a}') || c == '\u{2028}' || c == '\u{2029}' || c
        == '\u{202f}' || c == '\u{205f}' || c == '\u{3000}'
}

/// The characters of `text`, one by one.
fn chars_of(text: &str) -> (v: Vec<char>)
    ensures
        v@ == text@,
{
    let mut v: Vec<char> = Vec::new();
    for c in it: text.chars()
        invariant
            it.seq() == text@,
            v@ == it.seq().subrange(0, it.index()),
    {
        v.push(c);
        assert(v@ =~= it.seq().subrange(0, it.index() + 1));
    }
    assert(v@ =~= text@);
    v
}

/// The place of the first character from `i` on that is no space.
fn after_spaces(s: &[char], i: usize) -> (r: usize)
    requires
        i <= s@.len(),
    ensures
        r == skip_spaces(s@, i as int),
        i <= r <= s@.len(),
{
    let mut k = i;
    while k < s.len() && white_space(s[k])
        invariant
            i <= k <= s@.len(),
            skip_spaces(s@, k as int) == skip_spaces(s@, i as int),
        decreases s@.len() - k,
    {
        k += 1;
    }
    k
}

/// The place of the first character from `i` on that is a space.
fn after_word(s: &[char], i: usize) -> (r: usize)
    requires
        i <= s@.len(),
    ensures
        r == skip_word(s@, i as int),
        i <= r <= s@.len(),
{
    let mut k = i;
    while k < s.len() && !white_space(s[k])
        invariant
            i <= k <= s@.len(),
            skip_word(s@, k as int) == skip_word(s@, i as int),
        decreases s@.len() - k,
    {
        k += 1;
    }
    k
}

/// The place of the first line feed from `i` on.
fn end_of_line(s: &[char], i: usize) -> (r: usize)
    requires
        i <= s@.len(),
    ensures
        r == line_end(s@, i as int),
        i <= r <= s@.len(),
{
    let mut k = i;
    while k < s.len() && s[k] != LF
        invariant
            i <= k <= s@.len(),
            line_end(s@, k as int) == line_end(s@, i as int),
        decreases s@.len() - k,
    {
        k += 1;
    }
    k
}

/// Whether `line` begins with `key`.
fn begins_with(line: &[char], key: &[char]) -> (r: bool)
    ensures
        r == starts_with(line@, key@),
{
    if key.len() > line.len() {
        return false;
    }
    let mut i: usize = 0;
    while i < key.len()
        invariant
            i <= key@.len() <= line@.len(),
            forall|j: int| 0 <= j < i ==> line@[j] == key@[j],
        decreases key@.len() - i,
    {
        if line[i] != key[i] {
            assert(line@.subrange(0, key@.len() as int)[i as int] != key@[i as int]);
            return false;
        }
        i += 1;
    }
    assert(line@.subrange(0, key@.len() as int) =~= key@);
    true
}

/// Reads the number that `token` writes.
pub fn parse_number(token: &str) -> (r: Option<u64>)
    ensures
        r == number_u64(token@),
{
    let chars = chars_of(token);
    number_of(chars.as_slice())
}

/// Reads the number that `token` writes and multiplies it by `unit`.
pub fn parse_quantity(token: &str, unit: u64) -> (r: Option<u64>)
    ensures
        r == quantity(token@, unit),
{
    let chars = chars_of(token);
    quantity_of(chars.as_slice(), unit)
}

/// Reads the number that `token` writes.
fn number_of(token: &[char]) -> (r: Option<u64>)
    ensures
        r == number_u64(token@),
{
    let start: usize = if token.len() > 0 && token[0] == PLUS {
        1
    } else {
        0
    };
    let ghost digits = unsigned(token@);
    assert(digits =~= token@.subrange(start as int, token@.len() as int));
    if start == token.len() {
        return None;
    }
    let mut value: u64 = 0;
    let mut i: usize = start;
    while i < token.len()
        invariant
            start <= i <= token@.len(),
            start < token@.len(),
            digits == unsigned(token@),
            digits == token@.subrange(start as int, token@.len() as int),
            all_digits(digits.subrange(0, i - start)),
            value == decimal(digits.subrange(0, i - start)),
        decreases token@.len() - i,
    {
        let b = token[i];
        let ghost upto = digits.subrange(0, i - start + 1);
        assert(upto.drop_last() =~= digits.subrange(0, i - start));
        assert(upto.last() == b);
        assert(digits[i - start] == b);
        if b < ZERO || b > NINE {
            assert(!is_digit(digits[i - start]));
            assert(number(token@) is None);
            return None;
        }
        let d = (b as u32 - ZERO as u32) as u64;
        if value > (u64::MAX - d) / 10 {
            proof {
                assert(decimal(upto) == value * 10 + d);
                assert(decimal(upto) > u64::MAX);
                if all_digits(digits) {
                    lemma_decimal_grows(digits, i - start + 1);
                    assert(number(token@) == Some(decimal(digits)));
                }
            }
            return None;
        }
        assert forall|m: int| 0 <= m < upto.len() implies is_digit(#[trigger] upto[m]) by {
            if m < i - start {
                assert(digits.subrange(0, i - start)[m] == upto[m]);
            }
        }
        value = value * 10 + d;
        i += 1;
    }
    assert(digits.subrange(0, i - start) =~= digits);
    assert(number(token@) == Some(decimal(digits)));
    Some(value)
}

/// Reads the number that `token` writes and multiplies it by `unit`.
fn quantity_of(token: &[char], unit: u64) -> (r: Option<u64>)
    ensures
        r == quantity(token@, unit),
{
    match number_of(token) {
        None => None,
        Some(n) => n.checked_mul(unit),
    }
}

/// The second of the words of `line` as a number, times `unit`.
fn second_word_times(line: &[char], unit: u64) -> (r: Option<u64>)
    ensures
        r == match second_word(line@) {
            Some(word) => quantity(word, unit),
            None => None,
        },
{
    let first = after_spaces(line, 0);
    let gap = after_word(line, first);
    let second = after_spaces(line, gap);
    if second < line.len() {
        let end = after_word(line, second);
        quantity_of(slice_subrange(line, second, end), unit)
    } else {
        None
    }
}

/// Reads total and available memory, in bytes, out of the text of
/// `/proc/meminfo`.
pub fn parse_meminfo(text: &str) -> (r: Option<(u64, u64)>)
    ensures
        r == meminfo(text@),
{
    let all = chars_of(text);
    let chars = all.as_slice();
    let total_key = chars_of("MemTotal:");
    let available_key = chars_of("MemAvailable:");
    let mut figures: (u64, u64) = (0, 0);
    let mut i: usize = 0;
    while i < chars.len()
        invariant
            i <= chars@.len(),
            chars@ == text@,
            total_key@ == "MemTotal:"@,
            available_key@ == "MemAvailable:"@,
            meminfo_from(chars@, i as int, figures) == meminfo(chars@),
        decreases chars@.len() - i,
    {
        let end = end_of_line(chars, i);
        let line = slice_subrange(chars, i, end);
        if begins_with(line, total_key.as_slice()) {
            match second_word_times(line, KIB) {
                Some(bytes) => {
                    figures = (bytes, figures.1);
                },
                None => {
                    return None;
                },
            }
        } else if begins_with(line, available_key.as_slice()) {
            match second_word_times(line, KIB) {
                Some(bytes) => {
                    figures = (figures.0, bytes);
                },
                None => {
                    return None;
                },
            }
        }
        if end == chars.len() {
            i = end;
        } else {
            i = end + 1;
        }
    }
    Some(figures)
}

/// The colon.
pub const COLON: char = ':';

/// The full stop.
pub const DOT: char = '.';

/// Bytes in a page of memory.
pub const PAGE_SIZE: u64 = 4096;

/// The place after the last character before `j` that is no space; the start
/// where all are spaces.
pub open spec fn drop_spaces(s: Seq<char>, j: int) -> int
    decreases j,
{
    if 0 < j <= s.len() && is_space(s[j - 1]) {
        drop_spaces(s, j - 1)
    } else {
        j
    }
}

/// The place of the first character of the run before `j` that holds no space.
pub open spec fn word_start(s: Seq<char>, j: int) -> int
    decreases j,
{
    if 0 < j <= s.len() && !is_space(s[j - 1]) {
        word_start(s, j - 1)
    } else {
        j
    }
}

/// The place after the last character before `j` that is no full stop.
pub open spec fn drop_dots(s: Seq<char>, j: int) -> int
    decreases j,
{
    if 0 < j <= s.len() && s[j - 1] == DOT {
        drop_dots(s, j - 1)
    } else {
        j
    }
}

/// The first place from `i` on that holds a colon; the end where none
/// does.
pub open spec fn colon_from(s: Seq<char>, i: int) -> int
    decreases s.len() - i,
{
    if 0 <= i < s.len() && s[i] != COLON {
        colon_from(s, i + 1)
    } else {
        i
    }
}

/// `s` without the spaces at its two ends.
pub open spec fn trimmed(s: Seq<char>) -> Seq<char> {
    let start = skip_spaces(s, 0);
    let end = drop_spaces(s, s.len() as int);
    if start <= end {
        s.subrange(start, end)
    } else {
        Seq::empty()
    }
}

/// The second of the fields that colons part `s` into.
pub open spec fn second_field(s: Seq<char>) -> Option<Seq<char>> {
    let colon = colon_from(s, 0);
    if 0 <= colon < s.len() {
        Some(s.subrange(colon + 1, colon_from(s, colon + 1)))
    } else {
        None
    }
}

/// The last of the words that spaces part `line` into.
pub open spec fn last_word(line: Seq<char>) -> Option<Seq<char>> {
    let end = drop_spaces(line, line.len() as int);
    if 0 < end <= line.len() {
        Some(line.subrange(word_start(line, end), end))
    } else {
        None
    }
}

/// `word` without the full stops at its end.
pub open spec fn undotted(word: Seq<char>) -> Seq<char> {
    word.subrange(0, drop_dots(word, word.len() as int))
}

/// The size of the memory in bytes, as `text` gives it: the number in the
/// second of the fields that colons part the text into, spaces at the ends
/// of text and field apart.
pub open spec fn memsize(text: Seq<char>) -> Option<u64> {
    match second_field(trimmed(text)) {
        Some(field) => number_u64(trimmed(field)),
        None => None,
    }
}

/// The count of free pages so far, after `line` was read: a line that
/// begins with `Pages free:` gives the count as its last word, full stops
/// at its end apart; any other line changes nothing.
pub open spec fn free_pages_line(so_far: u64, line: Seq<char>) -> Option<u64> {
    if starts_with(line, "Pages free:"@) {
        match last_word(line) {
            Some(word) => number_u64(undotted(word)),
            None => None,
        }
    } else {
        Some(so_far)
    }
}

/// The count of free pages after the lines of `text` from place `i` on
/// were read, one after the other.
pub open spec fn free_pages_from(text: Seq<char>, i: int, so_far: u64) -> Option<u64>
    decreases text.len() - i,
{
    if 0 <= i < text.len() {
        let end = line_end(text, i);
        match free_pages_line(so_far, text.subrange(i, end)) {
            Some(next) => if i <= end < text.len() {
                free_pages_from(text, end + 1, next)
            } else {
                Some(next)
            },
            None => None,
        }
    } else {
        Some(so_far)
    }
}

/// The free memory in bytes, as the lines of `text` give it in pages;
/// zero where no line gives it.
pub open spec fn free_memory(text: Seq<char>) -> Option<u64> {
    match free_pages_from(text, 0, 0) {
        Some(pages) => if pages * PAGE_SIZE <= u64::MAX {
            Some((pages * PAGE_SIZE) as u64)
        } else {
            None
        },
        None => None,
    }
}

/// The place after the last character before `j` that is no space.
fn before_spaces(s: &[char], j: usize) -> (r: usize)
    requires
        j <= s@.len(),
    ensures
        r == drop_spaces(s@, j as int),
        r <= j,
{
    let mut k = j;
    while k > 0 && white_space(s[k - 1])
        invariant
            k <= j <= s@.len(),
            drop_spaces(s@, k as int) == drop_spaces(s@, j as int),
        decreases k,
    {
        k -= 1;
    }
    k
}

/// The place of the first character of the word that ends at `j`.
fn start_of_word(s: &[char], j: usize) -> (r: usize)
    requires
        j <= s@.len(),
    ensures
        r == word_start(s@, j as int),
        r <= j,
{
    let mut k = j;
    while k > 0 && !white_space(s[k - 1])
        invariant
            k <= j <= s@.len(),
            word_start(s@, k as int) == word_start(s@, j as int),
        decreases k,
    {
        k -= 1;
    }
    k
}

/// The place after the last character before `j` that is no full stop.
fn before_dots(s: &[char], j: usize) -> (r: usize)
    requires
        j <= s@.len(),
    ensures
        r == drop_dots(s@, j as int),
        r <= j,
{
    let mut k = j;
    while k > 0 && s[k - 1] == DOT
        invariant
            k <= j <= s@.len(),
            drop_dots(s@, k as int) == drop_dots(s@, j as int),
        decreases k,
    {
        k -= 1;
    }
    k
}

/// The place of the first colon from `i` on.
fn next_colon(s: &[char], i: usize) -> (r: usize)
    requires
        i <= s@.len(),
    ensures
        r == colon_from(s@, i as int),
        i <= r <= s@.len(),
{
    let mut k = i;
    while k < s.len() && s[k] != COLON
        invariant
            i <= k <= s@.len(),
            colon_from(s@, k as int) == colon_from(s@, i as int),
        decreases s@.len() - k,
    {
        k += 1;
    }
    k
}

/// `s` without the spaces at its two ends.
fn trim(s: &[char]) -> (r: &[char])
    ensures
        r@ == trimmed(s@),
{
    let start = after_spaces(s, 0);
    let end = before_spaces(s, s.len());
    if start <= end {
        slice_subrange(s, start, end)
    } else {
        slice_subrange(s, 0, 0)
    }
}

/// Reads the size of the memory, in bytes, out of what `sysctl` prints for
/// `hw.memsize`.
pub fn parse_memsize(text: &str) -> (r: Option<u64>)
    ensures
        r == memsize(text@),
{
    let all = chars_of(text);
    let t = trim(all.as_slice());
    let colon = next_colon(t, 0);
    if colon < t.len() {
        let end = next_colon(t, colon + 1);
        number_of(trim(slice_subrange(t, colon + 1, end)))
    } else {
        None
    }
}

/// Reads the count of free pages off a line that gives it.
fn free_pages_of(line: &[char]) -> (r: Option<u64>)
    ensures
        r == match last_word(line@) {
            Some(word) => number_u64(undotted(word)),
            None => None,
        },
{
    let end = before_spaces(line, line.len());
    if end > 0 {
        let start = start_of_word(line, end);
        let word = slice_subrange(line, start, end);
        let stop = before_dots(word, word.len());
        number_of(slice_subrange(word, 0, stop))
    } else {
        None
    }
}

/// Reads the free memory, in bytes, out of what `vm_stat` prints.
pub fn parse_free_memory(text: &str) -> (r: Option<u64>)
    ensures
        r == free_memory(text@),
{
    let all = chars_of(text);
    let chars = all.as_slice();
    let key = chars_of("Pages free:");
    let mut pages: u64 = 0;
    let mut i: usize = 0;
    while i < chars.len()
        invariant
            i <= chars@.len(),
            chars@ == text@,
            key@ == "Pages free:"@,
            free_pages_from(chars@, i as int, pages) == free_pages_from(chars@, 0, 0),
        decreases chars@.len() - i,
    {
        let end = end_of_line(chars, i);
        let line = slice_subrange(chars, i, end);
        if begins_with(line, key.as_slice()) {
            match free_pages_of(line) {
                Some(count) => {
                    pages = count;
                },
                None => {
                    return None;
                },
            }
        }
        if end == chars.len() {
            i = end;
        } else {
            i = end + 1;
        }
    }
    pages.checked_mul(PAGE_SIZE)
}

} // verus!
