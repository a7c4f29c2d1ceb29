//! Source text: characters, whitespace-delimited tokens, and the numeric
//! literals that tokens spell.

use vstd::prelude::*;

verus! {

/// Whether `c` separates tokens: the characters with the Unicode property
/// `White_Space`.
pub open spec fn is_space(c: char) -> bool {
    let n = c as u32;
    (0x09 <= n <= 0x0D) || n == 0x20 || n == 0x85 || n == 0xA0 || n == 0x1680 || (0x2000 <= n
        <= 0x200A) || n == 0x2028 || n == 0x2029 || n == 0x202F || n == 0x205F || n == 0x3000
}

/// The tokens of `text` when the characters of `pending` were read just
/// before it and belong to a token that has not ended yet.
pub open spec fn split_after(pending: Seq<char>, text: Seq<char>) -> Seq<Seq<char>>
    decreases text.len(),
{
    let ended = if pending.len() == 0 {
        Seq::<Seq<char>>::empty()
    } else {
        seq![pending]
    };
    if text.len() == 0 {
        ended
    } else if is_space(text[0]) {
        ended + split_after(Seq::empty(), text.skip(1))
    } else {
        split_after(pending.push(text[0]), text.skip(1))
    }
}

/// The tokens of `text`: its maximal runs of characters that are no
/// whitespace, in order.
pub open spec fn split_tokens(text: Seq<char>) -> Seq<Seq<char>> {
    split_after(Seq::empty(), text)
}

/// The tokens held by a vector of character vectors.
pub open spec fn token_views(tokens: Seq<Vec<char>>) -> Seq<Seq<char>> {
    Seq::new(tokens.len(), |i: int| tokens[i]@)
}

/// Whether `token` begins with the characters of `prefix`.
pub open spec fn begins_with(token: Seq<char>, prefix: Seq<char>) -> bool {
    prefix.len() <= token.len() && token.take(prefix.len() as int) == prefix
}

/// Whether `token` ends with the characters of `suffix`.
pub open spec fn ends_with(token: Seq<char>, suffix: Seq<char>) -> bool {
    suffix.len() <= token.len() && token.skip(token.len() - suffix.len()) == suffix
}

/// `text` with every occurrence of `pattern` taken out, found from the left
/// and without overlap. An empty pattern takes nothing out.
pub open spec fn without(text: Seq<char>, pattern: Seq<char>) -> Seq<char>
    decreases text.len(),
{
    if pattern.len() == 0 || text.len() < pattern.len() {
        text
    } else if begins_with(text, pattern) {
        without(text.skip(pattern.len() as int), pattern)
    } else {
        seq![text[0]] + without(text.skip(1), pattern)
    }
}

/// The characters of `token` from index `from` on; none where the token
/// has no more than `from` characters.
pub open spec fn tail_of(token: Seq<char>, from: nat) -> Seq<char> {
    if from <= token.len() {
        token.skip(from as int)
    } else {
        Seq::empty()
    }
}

/// The value of `c` as a digit: `0`-`9` are 0 to 9, and the letters of
/// either case are 10 to 35.
pub open spec fn digit_of(c: char) -> Option<nat> {
    if '0' <= c <= '9' {
        Some((c as u32 - '0' as u32) as nat)
    } else if 'a' <= c <= 'z' {
        Some((c as u32 - 'a' as u32 + 10) as nat)
    } else if 'A' <= c <= 'Z' {
        Some((c as u32 - 'A' as u32 + 10) as nat)
    } else {
        None
    }
}

/// The number that `digits` spell in base `radix`, most significant digit
/// first, or `None` where a character is no digit of that base. The empty
/// sequence spells zero.
pub open spec fn digits_value(digits: Seq<char>, radix: nat) -> Option<nat>
    decreases digits.len(),
{
    if digits.len() == 0 {
        Some(0)
    } else {
        match (digits_value(digits.drop_last(), radix), digit_of(digits.last())) {
            (Some(value), Some(digit)) => if digit < radix {
                Some(value * radix + digit)
            } else {
                None
            },
            _ => None,
        }
    }
}

/// The byte that `token` spells in base `radix`: an optional `+` sign,
/// then at least one digit of that base and nothing else, with a value of
/// at most 255. Leading zeros are allowed. `None` for every other token.
pub open spec fn number(token: Seq<char>, radix: nat) -> Option<u8> {
    let digits = if token.len() >= 2 && token[0] == '+' {
        token.skip(1)
    } else {
        token
    };
    if digits.len() == 0 {
        None
    } else {
        match digits_value(digits, radix) {
            Some(value) => if value <= 255 {
                Some(value as u8)
            } else {
                None
            },
            None => None,
        }
    }
}

/// Whether `c` is whitespace.
pub fn is_whitespace(c: char) -> (space: bool)
    ensures
        space == is_space(c),
{
    let n: u32 = c as u32;
    (0x09 <= n && n <= 0x0D) || n == 0x20 || n == 0x85 || n == 0xA0 || n == 0x1680 || (0x2000 <= n
        && n <= 0x200A) || n == 0x2028 || n == 0x2029 || n == 0x202F || n == 0x205F || n == 0x3000
}

/// The characters of a string, in order.
pub fn to_chars(text: &str) -> (chars: Vec<char>)
    ensures
        chars@ == text@,
{
    let mut chars: Vec<char> = Vec::new();
    for c in it: text.chars()
        invariant
            chars@ == it.seq().take(it.index() as int),
            it.seq() == text@,
    {
        chars.push(c);
    }
    chars
}

/// Splits `text` into its tokens.
pub fn tokenize(text: &Vec<char>) -> (tokens: Vec<Vec<char>>)
    ensures
        token_views(tokens@) == split_tokens(text@),
{
    let mut tokens: Vec<Vec<char>> = Vec::new();
    let mut pending: Vec<char> = Vec::new();
    let mut i: usize = 0;
    assert(token_views(tokens@) =~= Seq::<Seq<char>>::empty());
    assert(text@.skip(0) =~= text@);
    while i < text.len()
        invariant
            i <= text.len(),
            split_tokens(text@) == token_views(tokens@) + split_after(
                pending@,
                text@.skip(i as int),
            ),
        decreases text.len() - i,
    {
        let c = text[i];
        let ghost rest = text@.skip(i as int);
        let ghost before = token_views(tokens@);
        assert(rest[0] == c);
        assert(rest.skip(1) =~= text@.skip(i + 1));
        if is_whitespace(c) {
            if pending.len() > 0 {
                let ghost word = pending@;
                tokens.push(pending);
                pending = Vec::new();
                assert(token_views(tokens@) =~= before + seq![word]);
                assert(pending@ =~= Seq::<char>::empty());
                assert(before + (seq![word] + split_after(Seq::empty(), rest.skip(1)))
                    =~= token_views(tokens@) + split_after(Seq::empty(), rest.skip(1)));
            } else {
                assert(pending@ =~= Seq::<char>::empty());
                assert(Seq::<Seq<char>>::empty() + split_after(Seq::empty(), rest.skip(1))
                    =~= split_after(Seq::empty(), rest.skip(1)));
            }
        } else {
            pending.push(c);
        }
        i += 1;
    }
    if pending.len() > 0 {
        let ghost before = token_views(tokens@);
        let ghost word = pending@;
        tokens.push(pending);
        assert(token_views(tokens@) =~= before + seq![word]);
    } else {
        assert(token_views(tokens@) + Seq::<Seq<char>>::empty() =~= token_views(tokens@));
    }
    tokens
}

/// Whether two tokens hold the same characters.
pub fn same_chars(a: &Vec<char>, b: &Vec<char>) -> (same: bool)
    ensures
        same == (a@ == b@),
{
    if a.len() != b.len() {
        return false;
    }
    let mut i: usize = 0;
    while i < a.len()
        invariant
            a.len() == b.len(),
            i <= a.len(),
            forall|j: int| 0 <= j < i ==> a@[j] == b@[j],
        decreases a.len() - i,
    {
        if a[i] != b[i] {
            return false;
        }
        i += 1;
    }
    assert(a@ =~= b@);
    true
}

/// Whether `token` spells `word`.
pub fn spells(token: &Vec<char>, word: &str) -> (same: bool)
    ensures
        same == (token@ == word@),
{
    let n = word.unicode_len();
    if token.len() != n {
        return false;
    }
    let mut i: usize = 0;
    while i < n
        invariant
            n == token.len(),
            n == word@.len(),
            i <= n,
            forall|j: int| 0 <= j < i ==> token@[j] == word@[j],
        decreases n - i,
    {
        if token[i] != word.get_char(i) {
            return false;
        }
        i += 1;
    }
    assert(token@ =~= word@);
    true
}

/// Whether the characters of `text` from index `at` on begin with
/// `pattern`.
fn matches_at<const N: usize>(text: &Vec<char>, at: usize, pattern: &[char; N]) -> (b: bool)
    requires
        at <= text.len(),
    ensures
        b == begins_with(text@.skip(at as int), pattern@),
{
    if text.len() - at < N {
        return false;
    }
    let ghost rest = text@.skip(at as int);
    let mut i: usize = 0;
    while i < N
        invariant
            at + N <= text.len(),
            i <= N,
            pattern@.len() == N,
            rest == text@.skip(at as int),
            forall|j: int| 0 <= j < i ==> rest[j] == pattern@[j],
        decreases N - i,
    {
        if text[at + i] != pattern[i] {
            assert(rest.take(N as int)[i as int] != pattern@[i as int]);
            return false;
        }
        i += 1;
    }
    assert(rest.take(N as int) =~= pattern@);
    true
}

/// Whether `token` begins with `prefix`.
pub fn starts_with<const N: usize>(token: &Vec<char>, prefix: &[char; N]) -> (b: bool)
    ensures
        b == begins_with(token@, prefix@),
{
    assert(token@.skip(0) =~= token@);
    matches_at(token, 0, prefix)
}

/// Whether `token` ends with `suffix`.
pub fn has_suffix<const N: usize>(token: &Vec<char>, suffix: &[char; N]) -> (b: bool)
    ensures
        b == ends_with(token@, suffix@),
{
    if token.len() < N {
        return false;
    }
    let at = token.len() - N;
    let b = matches_at(token, at, suffix);
    assert(token@.skip(at as int).take(N as int) =~= token@.skip(at as int));
    b
}

/// The characters of `token` from index `from` on.
pub fn tail(token: &Vec<char>, from: usize) -> (rest: Vec<char>)
    ensures
        rest@ == tail_of(token@, from as nat),
{
    let mut rest: Vec<char> = Vec::new();
    if from > token.len() {
        return rest;
    }
    let mut i: usize = from;
    while i < token.len()
        invariant
            from <= i <= token.len(),
            rest@ == token@.subrange(from as int, i as int),
        decreases token.len() - i,
    {
        rest.push(token[i]);
        assert(token@.subrange(from as int, i + 1) =~= token@.subrange(from as int, i as int).push(
            token@[i as int],
        ));
        i += 1;
    }
    assert(token@.subrange(from as int, token.len() as int) =~= token@.skip(from as int));
    rest
}

/// Takes every occurrence of `pattern` out of `text`, scanning from the
/// left.
pub fn remove_all<const N: usize>(text: &Vec<char>, pattern: &[char; N]) -> (kept: Vec<char>)
    ensures
        kept@ == without(text@, pattern@),
{
    let mut kept: Vec<char> = Vec::new();
    let mut i: usize = 0;
    assert(text@.skip(0) =~= text@);
    if N == 0 {
        while i < text.len()
            invariant
                i <= text.len(),
                kept@ == text@.take(i as int),
            decreases text.len() - i,
        {
            kept.push(text[i]);
            assert(text@.take(i + 1) =~= text@.take(i as int).push(text@[i as int]));
            i += 1;
        }
        assert(text@.take(text.len() as int) =~= text@);
        return kept;
    }
    while i < text.len()
        invariant
            N > 0,
            pattern@.len() == N,
            i <= text.len(),
            without(text@, pattern@) == kept@ + without(text@.skip(i as int), pattern@),
        decreases text.len() - i,
    {
        let ghost rest = text@.skip(i as int);
        let ghost so_far = kept@;
        if matches_at(text, i, pattern) {
            assert(rest.skip(N as int) =~= text@.skip(i + N));
            i += N;
        } else {
            if text.len() - i < N {
                assert(without(rest, pattern@) == rest);
                // Nothing more can match: the rest is kept as it is.
                let ghost start = i;
                while i < text.len()
                    invariant
                        start <= i <= text.len(),
                        kept@ == so_far + text@.subrange(start as int, i as int),
                    decreases text.len() - i,
                {
                    kept.push(text[i]);
                    assert(text@.subrange(start as int, i + 1) =~= text@.subrange(
                        start as int,
                        i as int,
                    ).push(text@[i as int]));
                    i += 1;
                }
                assert(text@.subrange(start as int, text.len() as int) =~= rest);
                assert(text@.skip(text.len() as int) =~= Seq::<char>::empty());
                assert(kept@ + without(text@.skip(i as int), pattern@) =~= kept@);
            } else {
                kept.push(text[i]);
                assert(rest.skip(1) =~= text@.skip(i + 1));
                assert(so_far + (seq![rest[0]] + without(rest.skip(1), pattern@)) =~= kept@
                    + without(rest.skip(1), pattern@));
                i += 1;
            }
        }
    }
    assert(text@.skip(text.len() as int) =~= Seq::<char>::empty());
    assert(kept@ + Seq::<char>::empty() =~= kept@);
    kept
}

/// The value of a character as a digit of base 36 or less.
pub fn digit_value(c: char) -> (digit: Option<u8>)
    ensures
        digit matches Some(d) ==> digit_of(c) == Some(d as nat) && d < 36,
        digit is None ==> digit_of(c) is None,
{
    if c >= '0' && c <= '9' {
        Some((c as u32 - '0' as u32) as u8)
    } else if c >= 'a' && c <= 'z' {
        Some((c as u32 - 'a' as u32 + 10) as u8)
    } else if c >= 'A' && c <= 'Z' {
        Some((c as u32 - 'A' as u32 + 10) as u8)
    } else {
        None
    }
}

/// What a prefix of a digit string spells bounds what the whole spells: if
/// the prefix is no number, neither is the whole, and otherwise the whole
/// is no number or a number at least as large.
pub proof fn lemma_digits_prefix(digits: Seq<char>, k: int, radix: nat)
    requires
        0 <= k <= digits.len(),
        radix >= 1,
    ensures
        digits_value(digits.take(k), radix) is None ==> digits_value(digits, radix) is None,
        digits_value(digits, radix) matches Some(whole) ==> digits_value(digits.take(k), radix)
            matches Some(part) && part <= whole,
    decreases digits.len() - k,
{
    if k == digits.len() {
        assert(digits.take(k) =~= digits);
    } else {
        assert(digits.drop_last().take(k) =~= digits.take(k));
        lemma_digits_prefix(digits.drop_last(), k, radix);
        match (digits_value(digits.drop_last(), radix), digit_of(digits.last())) {
            (Some(value), Some(digit)) => {
                assert(value * radix >= value) by (nonlinear_arith)
                    requires
                        radix >= 1,
                        value >= 0,
                ;
            },
            _ => {},
        }
    }
}

/// Reads `token` as a byte written in base `radix`.
pub fn parse_number(token: &Vec<char>, radix: u8) -> (value: Option<u8>)
    requires
        2 <= radix <= 36,
    ensures
        value == number(token@, radix as nat),
{
    let start: usize = if token.len() >= 2 && token[0] == '+' {
        1
    } else {
        0
    };
    let ghost digits = token@.skip(start as int);
    assert(token@.skip(0) =~= token@);
    if token.len() - start == 0 {
        return None;
    }
    let mut value: u32 = 0;
    let mut i: usize = start;
    assert(digits.take(0) =~= Seq::<char>::empty());
    while i < token.len()
        invariant
            2 <= radix <= 36,
            start <= i <= token.len(),
            digits == token@.skip(start as int),
            digits_value(digits, radix as nat) is None ==> number(token@, radix as nat) is None,
            digits_value(digits, radix as nat) matches Some(whole) ==> number(
                token@,
                radix as nat,
            ) == (if whole <= 255 {
                Some(whole as u8)
            } else {
                None
            }),
            digits_value(digits.take(i - start), radix as nat) == Some(value as nat),
            value <= 255,
        decreases token.len() - i,
    {
        let ghost part = digits.take(i - start + 1);
        assert(part.drop_last() =~= digits.take(i - start));
        assert(part.last() == token@[i as int]);
        proof {
            lemma_digits_prefix(digits, i - start + 1, radix as nat);
        }
        let digit = match digit_value(token[i]) {
            None => {
                return None;
            },
            Some(digit) => digit,
        };
        if digit >= radix {
            return None;
        }
        assert(value * radix + digit <= 255 * 36 + 35) by (nonlinear_arith)
            requires
                value <= 255,
                radix <= 36,
                digit <= 35,
        ;
        value = value * (radix as u32) + digit as u32;
        if value > 255 {
            return None;
        }
        i += 1;
    }
    assert(digits.take(token.len() - start) =~= digits);
    Some(value as u8)
}

/// The character that writes a digit below ten.
pub open spec fn digit_char(digit: nat) -> char {
    ((48 + digit) as u8) as char
}

/// The decimal spelling of a number: its digits, most significant first,
/// without sign and without leading zeros.
pub open spec fn decimal_of(value: nat) -> Seq<char>
    decreases value,
{
    if value < 10 {
        seq![digit_char(value)]
    } else {
        decimal_of(value / 10).push(digit_char(value % 10))
    }
}

/// Spells a byte in decimal, as an output line shows it.
pub fn decimal(value: u8) -> (digits: Vec<char>)
    ensures
        digits@ == decimal_of(value as nat),
        number(digits@, 10) == Some(value),
{
    let mut digits: Vec<char> = Vec::new();
    if value >= 100 {
        digits.push((48 + value / 100) as char);
    }
    if value >= 10 {
        digits.push((48 + (value / 10) % 10) as char);
    }
    digits.push((48 + value % 10) as char);
    proof {
        reveal_with_fuel(decimal_of, 3);
        assert(digits@ =~= decimal_of(value as nat));
        lemma_decimal_reads_back(value as nat);
    }
    digits
}

/// A number is read back from its decimal spelling: the spelling holds
/// digits only, at least one, and they spell the number.
pub proof fn lemma_decimal_reads_back(value: nat)
    ensures
        decimal_of(value).len() >= 1,
        decimal_of(value)[0] != '+',
        digits_value(decimal_of(value), 10) == Some(value),
        value <= 255 ==> number(decimal_of(value), 10) == Some(value as u8),
    decreases value,
{
    let spelling = decimal_of(value);
    let last = digit_char(value % 10);
    assert(digit_of(last) == Some(value % 10));
    assert(spelling.last() == last);
    if value < 10 {
        assert(spelling.drop_last() =~= Seq::<char>::empty());
        assert(digits_value(Seq::<char>::empty(), 10) == Some(0nat));
    } else {
        lemma_decimal_reads_back(value / 10);
        assert(spelling.drop_last() =~= decimal_of(value / 10));
        assert(spelling[0] == decimal_of(value / 10)[0]);
    }
    assert(digits_value(spelling, 10) == Some(value));
    if spelling.len() >= 2 && spelling[0] == '+' {
    } else {
        assert(spelling.len() > 0);
    }
}

/// Tokens hold no whitespace and are not empty: every token that
/// `split_after` gives is a run of one or more characters that are no
/// whitespace, provided the pending characters are none.
pub proof fn lemma_tokens_are_words(pending: Seq<char>, text: Seq<char>)
    requires
        forall|j: int| 0 <= j < pending.len() ==> !is_space(#[trigger] pending[j]),
    ensures
        forall|i: int|
            0 <= i < split_after(pending, text).len() ==> is_word(
                #[trigger] split_after(pending, text)[i],
            ),
    decreases text.len(),
{
    let tokens = split_after(pending, text);
    let ended = if pending.len() == 0 {
        Seq::<Seq<char>>::empty()
    } else {
        seq![pending]
    };
    if pending.len() > 0 {
        assert(is_word(pending));
    }
    if text.len() == 0 {
        assert(tokens == ended);
        assert forall|i: int| 0 <= i < tokens.len() implies is_word(#[trigger] tokens[i]) by {
            assert(tokens[i] == pending);
        }
    } else if is_space(text[0]) {
        let later = split_after(Seq::empty(), text.skip(1));
        lemma_tokens_are_words(Seq::empty(), text.skip(1));
        assert forall|i: int| 0 <= i < tokens.len() implies is_word(#[trigger] tokens[i]) by {
            if i < ended.len() {
                assert(tokens[i] == pending);
            } else {
                assert(tokens[i] == later[i - ended.len()]);
            }
        }
    } else {
        let longer = pending.push(text[0]);
        assert forall|j: int| 0 <= j < longer.len() implies !is_space(#[trigger] longer[j]) by {
            if j < pending.len() {
                assert(longer[j] == pending[j]);
            }
        }
        lemma_tokens_are_words(longer, text.skip(1));
        assert(tokens == split_after(longer, text.skip(1)));
    }
}

/// A word: one or more characters, none of them whitespace.
pub open spec fn is_word(token: Seq<char>) -> bool {
    token.len() > 0 && forall|j: int| 0 <= j < token.len() ==> !is_space(#[trigger] token[j])
}

} // verus!
