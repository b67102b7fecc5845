use vstd::prelude::*;

verus! {

/// The characters with the Unicode `White_Space` property, which `char::is_whitespace`
/// recognises.
pub open spec fn is_space(c: char) -> bool {
    let u = c as u32;
    (0x09 <= u <= 0x0D) || u == 0x20 || u == 0x85 || u == 0xA0 || u == 0x1680 || (0x2000 <= u
        <= 0x200A) || u == 0x2028 || u == 0x2029 || u == 0x202F || u == 0x205F || u == 0x3000
}

pub fn is_space_char(c: char) -> (res: bool)
    ensures
        res == is_space(c),
{
    let u = c as u32;
    (0x09 <= u && u <= 0x0D) || u == 0x20 || u == 0x85 || u == 0xA0 || u == 0x1680 || (0x2000 <= u
        && u <= 0x200A) || u == 0x2028 || u == 0x2029 || u == 0x202F || u == 0x205F || u == 0x3000
}

/// Appends one character: calls `String::push`.
///
/// Claims what the documentation of `String::push` says: the character is added at the end.
#[verifier::external_body]
pub(crate) fn push_char(s: &mut String, c: char)
    ensures
        final(s)@ == old(s)@.push(c),
{
    s.push(c);
}

/// The number of leading whitespace characters of `s`.
pub open spec fn leading_spaces(s: Seq<char>) -> nat
    decreases s.len(),
{
    if s.len() == 0 {
        0
    } else if is_space(s[0]) {
        1 + leading_spaces(s.drop_first())
    } else {
        0
    }
}

/// `s` without its leading whitespace.
pub open spec fn trim_start(s: Seq<char>) -> Seq<char> {
    s.skip(leading_spaces(s) as int)
}

/// `s` without its trailing whitespace.
pub open spec fn trim_end(s: Seq<char>) -> Seq<char>
    decreases s.len(),
{
    if s.len() > 0 && is_space(s.last()) {
        trim_end(s.drop_last())
    } else {
        s
    }
}

/// `s` without leading and trailing whitespace, as `str::trim` gives it.
pub open spec fn trim(s: Seq<char>) -> Seq<char> {
    trim_end(trim_start(s))
}

proof fn lemma_leading_spaces_bound(s: Seq<char>)
    ensures
        leading_spaces(s) <= s.len(),
        forall|k: int| 0 <= k < leading_spaces(s) ==> is_space(#[trigger] s[k]),
        leading_spaces(s) < s.len() ==> !is_space(s[leading_spaces(s) as int]),
    decreases s.len(),
{
    if s.len() > 0 && is_space(s[0]) {
        lemma_leading_spaces_bound(s.drop_first());
        assert forall|k: int| 0 <= k < leading_spaces(s) implies is_space(#[trigger] s[k]) by {
            if k > 0 {
                assert(s[k] == s.drop_first()[k - 1]);
            }
        }
    }
}

proof fn lemma_leading_spaces_push(s: Seq<char>, c: char)
    requires
        leading_spaces(s) < s.len(),
    ensures
        leading_spaces(s.push(c)) == leading_spaces(s),
    decreases s.len(),
{
    if is_space(s[0]) {
        assert(s.push(c).drop_first() =~= s.drop_first().push(c));
        lemma_leading_spaces_push(s.drop_first(), c);
    }
}

proof fn lemma_leading_spaces_all(s: Seq<char>, c: char)
    requires
        leading_spaces(s) == s.len(),
    ensures
        leading_spaces(s.push(c)) == if is_space(c) { s.len() + 1 } else { s.len() },
    decreases s.len(),
{
    if s.len() > 0 {
        assert(is_space(s[0]));
        assert(s.push(c)[0] == s[0]);
        assert(s.push(c).drop_first() =~= s.drop_first().push(c));
        lemma_leading_spaces_all(s.drop_first(), c);
    } else {
        assert(s.push(c).drop_first() =~= Seq::<char>::empty());
        assert(leading_spaces(s.push(c).drop_first()) == 0);
        assert(s.push(c)[0] == c);
    }
}

proof fn lemma_trim_end_spaces(x: Seq<char>, p: Seq<char>)
    requires
        forall|k: int| 0 <= k < p.len() ==> is_space(#[trigger] p[k]),
    ensures
        trim_end(x + p) == trim_end(x),
    decreases p.len(),
{
    if p.len() > 0 {
        assert((x + p).drop_last() =~= x + p.drop_last());
        lemma_trim_end_spaces(x, p.drop_last());
    } else {
        assert(x + p =~= x);
    }
}

/// Appends the characters of `chars` to `out`.
fn push_all(out: &mut String, chars: &Vec<char>)
    ensures
        final(out)@ == old(out)@ + chars@,
{
    let mut i: usize = 0;
    while i < chars.len()
        invariant
            i <= chars@.len(),
            out@ == old(out)@ + chars@.take(i as int),
        decreases chars.len() - i,
    {
        push_char(out, chars[i]);
        assert(chars@.take(i + 1) =~= chars@.take(i as int).push(chars@[i as int]));
        i = i + 1;
    }
    assert(chars@.take(i as int) =~= chars@);
}

/// Removes leading and trailing whitespace (the `str::trim` rule).
pub fn trim_str(s: &str) -> (res: String)
    ensures
        res@ == trim(s@),
{
    // `out` holds the copy up to its last non-whitespace character, `pending` the
    // whitespace seen since then.
    let mut out: String = String::new();
    let mut pending: Vec<char> = Vec::new();
    let mut started = false;
    let ghost mut seen: int = 0;
    for c in it: s.chars()
        invariant
            seen == it.index(),
            0 <= seen <= it.seq().len(),
            it.seq() == s@,
            started <==> leading_spaces(s@.take(seen)) < seen,
            !started ==> leading_spaces(s@.take(seen)) == seen && out@.len() == 0 && pending@.len() == 0,
            started ==> out@ + pending@ == s@.take(seen).skip(leading_spaces(s@.take(seen)) as int),
            forall|k: int| 0 <= k < pending@.len() ==> is_space(#[trigger] pending@[k]),
            trim_end(out@) == out@,
    {
        let ghost prefix = s@.take(seen);
        proof {
            assert(s@.take(seen + 1) =~= prefix.push(c));
            lemma_leading_spaces_bound(prefix);
        }
        let space = is_space_char(c);
        if started {
            let ghost old_out = out@;
            let ghost old_pending = pending@;
            proof {
                lemma_leading_spaces_push(prefix, c);
                let l = leading_spaces(prefix) as int;
                assert(prefix.push(c).skip(l) =~= prefix.skip(l).push(c));
            }
            if space {
                pending.push(c);
            } else {
                push_all(&mut out, &pending);
                pending = Vec::new();
                push_char(&mut out, c);
                proof {
                    assert(out@.drop_last() =~= out@.take(out@.len() - 1));
                }
            }
            assert(out@ + pending@ =~= (old_out + old_pending).push(c));
        } else {
            proof {
                lemma_leading_spaces_all(prefix, c);
            }
            if !space {
                push_char(&mut out, c);
                started = true;
                proof {
                    assert(out@ + pending@ =~= s@.take(seen + 1).skip(
                        leading_spaces(s@.take(seen + 1)) as int,
                    ));
                    assert(out@.drop_last() =~= Seq::<char>::empty());
                }
            }
        }
        proof {
            seen = seen + 1;
        }
    }
    proof {
        assert(s@.take(seen) =~= s@);
        lemma_trim_end_spaces(out@, pending@);
        if !started {
            assert(trim_start(s@) =~= Seq::<char>::empty());
        }
    }
    out
}

/// The pieces of `s` between occurrences of `sep`, as `str::split` with a `char`
/// pattern gives them (an empty `s` gives one empty piece).
pub open spec fn split_on(s: Seq<char>, sep: char) -> Seq<Seq<char>>
    decreases s.len(),
{
    if s.len() == 0 {
        seq![Seq::<char>::empty()]
    } else {
        let prev = split_on(s.drop_last(), sep);
        if s.last() == sep {
            prev.push(Seq::<char>::empty())
        } else {
            prev.update(prev.len() - 1, prev.last().push(s.last()))
        }
    }
}

pub open spec fn string_views(v: Seq<String>) -> Seq<Seq<char>> {
    v.map_values(|p: String| p@)
}

/// Splits `s` at every `sep`.
pub fn split_char(s: &str, sep: char) -> (res: Vec<String>)
    ensures
        string_views(res@) == split_on(s@, sep),
{
    let mut pieces: Vec<String> = Vec::new();
    let mut current: String = String::new();
    let ghost mut seen: int = 0;
    proof {
        assert(string_views(pieces@).push(current@) =~= split_on(s@.take(0), sep));
    }
    for c in it: s.chars()
        invariant
            seen == it.index(),
            0 <= seen <= it.seq().len(),
            it.seq() == s@,
            string_views(pieces@).push(current@) == split_on(s@.take(seen), sep),
    {
        let ghost prefix = s@.take(seen);
        let ghost old_pieces = string_views(pieces@);
        let ghost old_current = current@;
        proof {
            assert(s@.take(seen + 1).drop_last() =~= prefix);
            assert(s@.take(seen + 1).last() == c);
        }
        if c == sep {
            let done = current;
            pieces.push(done);
            current = String::new();
            assert(string_views(pieces@) =~= old_pieces.push(old_current));
            assert(string_views(pieces@).push(current@) =~= old_pieces.push(old_current).push(
                Seq::<char>::empty(),
            ));
        } else {
            push_char(&mut current, c);
            assert(string_views(pieces@).push(current@) =~= old_pieces.push(old_current).update(
                old_pieces.len() as int,
                old_current.push(c),
            ));
        }
        proof {
            seen = seen + 1;
        }
    }
    let ghost before = string_views(pieces@);
    pieces.push(current);
    proof {
        assert(s@.take(seen) =~= s@);
        assert(string_views(pieces@) =~= before.push(current@));
    }
    pieces
}

/// The finished words of `s` and the word in progress at its end, for splitting on
/// whitespace.
pub open spec fn words_state(s: Seq<char>) -> (Seq<Seq<char>>, Seq<char>)
    decreases s.len(),
{
    if s.len() == 0 {
        (Seq::<Seq<char>>::empty(), Seq::<char>::empty())
    } else {
        let prev = words_state(s.drop_last());
        if is_space(s.last()) {
            if prev.1.len() > 0 {
                (prev.0.push(prev.1), Seq::<char>::empty())
            } else {
                prev
            }
        } else {
            (prev.0, prev.1.push(s.last()))
        }
    }
}

/// The maximal runs of non-whitespace characters of `s`, as `str::split_whitespace`
/// gives them.
pub open spec fn words(s: Seq<char>) -> Seq<Seq<char>> {
    let st = words_state(s);
    if st.1.len() > 0 {
        st.0.push(st.1)
    } else {
        st.0
    }
}

/// Splits `s` into its whitespace-separated words.
pub fn split_words(s: &str) -> (res: Vec<String>)
    ensures
        string_views(res@) == words(s@),
{
    let mut done: Vec<String> = Vec::new();
    let mut current: String = String::new();
    let ghost mut seen: int = 0;
    for c in it: s.chars()
        invariant
            seen == it.index(),
            0 <= seen <= it.seq().len(),
            it.seq() == s@,
            (string_views(done@), current@) == words_state(s@.take(seen)),
    {
        let ghost prefix = s@.take(seen);
        let ghost old_done = string_views(done@);
        proof {
            assert(s@.take(seen + 1).drop_last() =~= prefix);
            assert(s@.take(seen + 1).last() == c);
        }
        if is_space_char(c) {
            if !current.as_str().is_empty() {
                let word = current;
                let ghost w = word@;
                done.push(word);
                current = String::new();
                assert(string_views(done@) =~= old_done.push(w));
            }
        } else {
            push_char(&mut current, c);
            assert(string_views(done@) =~= old_done);
        }
        proof {
            seen = seen + 1;
        }
    }
    proof {
        assert(s@.take(seen) =~= s@);
    }
    if !current.as_str().is_empty() {
        let ghost before = string_views(done@);
        let ghost w = current@;
        done.push(current);
        assert(string_views(done@) =~= before.push(w));
    }
    done
}

pub open spec fn is_digit(c: char) -> bool {
    0x30 <= (c as u32) <= 0x39
}

/// The decimal value of a string of ASCII digits.
pub open spec fn digits_value(d: Seq<char>) -> nat
    decreases d.len(),
{
    if d.len() == 0 {
        0
    } else {
        digits_value(d.drop_last()) * 10 + ((d.last() as u32) - 0x30) as nat
    }
}

/// The digits of an unsigned decimal: one leading `+` is allowed.
pub open spec fn unsigned_digits(s: Seq<char>) -> Seq<char> {
    if s.len() > 0 && s[0] == '+' {
        s.drop_first()
    } else {
        s
    }
}

/// The value of `s` as `u32::from_str` reads it: an optional `+` followed by one or
/// more ASCII digits whose value fits in a `u32`.
pub open spec fn parse_u32_spec(s: Seq<char>) -> Option<u32> {
    let d = unsigned_digits(s);
    if d.len() > 0 && (forall|i: int| 0 <= i < d.len() ==> is_digit(#[trigger] d[i]))
        && digits_value(d) <= u32::MAX {
        Some(digits_value(d) as u32)
    } else {
        None
    }
}

proof fn lemma_digits_value_grows(d: Seq<char>, k: int)
    requires
        0 <= k <= d.len(),
        forall|i: int| 0 <= i < d.len() ==> is_digit(#[trigger] d[i]),
    ensures
        digits_value(d.take(k)) <= digits_value(d),
    decreases d.len() - k,
{
    if k < d.len() {
        lemma_digits_value_grows(d, k + 1);
        assert(d.take(k + 1).drop_last() =~= d.take(k));
        assert(is_digit(d.take(k + 1).last()));
    } else {
        assert(d.take(k) =~= d);
    }
}

/// The digits among the first `n` characters of `s`, after a leading `+` if `plus`.
spec fn digits_read(s: Seq<char>, n: int, plus: bool) -> Seq<char> {
    if plus {
        s.take(n).drop_first()
    } else {
        s.take(n)
    }
}

/// Reads a `u32` written in decimal (the `u32::from_str` rule).
pub fn parse_u32(s: &str) -> (res: Option<u32>)
    ensures
        res == parse_u32_spec(s@),
{
    let mut value: u64 = 0;
    let mut first = true;
    let mut plus = false;
    let mut any_digit = false;
    let ghost mut seen: int = 0;
    for c in it: s.chars()
        invariant
            seen == it.index(),
            0 <= seen <= it.seq().len(),
            it.seq() == s@,
            first <==> seen == 0,
            plus <==> (seen > 0 && s@[0] == '+'),
            ({
                let digits = digits_read(s@, seen, plus);
                &&& any_digit <==> digits.len() > 0
                &&& forall|i: int| 0 <= i < digits.len() ==> is_digit(#[trigger] digits[i])
                &&& value == digits_value(digits)
                &&& value <= u32::MAX
            }),
    {
        let ghost old_digits = digits_read(s@, seen, plus);
        proof {
            assert(s@.take(seen + 1).drop_last() =~= s@.take(seen));
        }
        if first && c == '+' {
            plus = true;
            first = false;
            assert(s@.take(seen + 1).drop_first() =~= Seq::<char>::empty());
        } else {
            let u = c as u32;
            if u < 0x30 || u > 0x39 {
                proof {
                    let d = unsigned_digits(s@);
                    let j = if plus { seen - 1 } else { seen };
                    assert(d[j] == c);
                }
                return None;
            }
            let next = value * 10 + (u - 0x30) as u64;
            let ghost new_digits = digits_read(s@, seen + 1, plus);
            proof {
                assert(new_digits.drop_last() =~= old_digits);
                assert(new_digits.last() == c);
            }
            if next > 0xFFFF_FFFF {
                proof {
                    let d = unsigned_digits(s@);
                    let j = if plus { seen - 1 } else { seen };
                    assert(d.take(j + 1) =~= new_digits);
                    if forall|i: int| 0 <= i < d.len() ==> is_digit(#[trigger] d[i]) {
                        lemma_digits_value_grows(d, j + 1);
                    }
                }
                return None;
            }
            proof {
                assert(is_digit(c));
                assert(forall|i: int| 0 <= i < old_digits.len() ==> is_digit(#[trigger] old_digits[i]));
                assert(new_digits.len() == old_digits.len() + 1);
                assert forall|i: int| 0 <= i < new_digits.len() implies is_digit(#[trigger] new_digits[i]) by {
                    if i < new_digits.len() - 1 {
                        assert(new_digits[i] == old_digits[i]);
                        assert(is_digit(old_digits[i]));
                    } else {
                        assert(new_digits[i] == c);
                    }
                }
                assert(digits_value(new_digits) == digits_value(old_digits) * 10 + (u - 0x30) as nat);
            }
            value = next;
            first = false;
            any_digit = true;
        }
        proof {
            seen = seen + 1;
        }
    }
    proof {
        assert(s@.take(seen) =~= s@);
        let d = unsigned_digits(s@);
        let digits = digits_read(s@, seen, plus);
        assert(d =~= digits);
    }
    if !any_digit {
        return None;
    }
    Some(value as u32)
}

/// The decimal numeral of `n`: most significant digit first, no leading zero.
pub open spec fn decimal(n: nat) -> Seq<char>
    decreases n,
{
    if n < 10 {
        seq![(0x30 + n) as char]
    } else {
        decimal(n / 10).push((0x30 + n % 10) as char)
    }
}

proof fn lemma_decimal_digits(n: nat)
    ensures
        decimal(n).len() > 0,
        forall|i: int| 0 <= i < decimal(n).len() ==> is_digit(#[trigger] decimal(n)[i]),
        digits_value(decimal(n)) == n,
    decreases n,
{
    if n < 10 {
        let c = (0x30 + n) as char;
        assert(c as u32 == 0x30 + n);
        assert(decimal(n).drop_last() =~= Seq::<char>::empty());
        assert(digits_value(Seq::<char>::empty()) == 0);
        assert(decimal(n).last() == c);
    } else {
        lemma_decimal_digits(n / 10);
        let c = (0x30 + n % 10) as char;
        assert(c as u32 == 0x30 + n % 10);
        let d = decimal(n);
        assert(d.drop_last() =~= decimal(n / 10));
        assert forall|i: int| 0 <= i < d.len() implies is_digit(#[trigger] d[i]) by {
            if i < d.len() - 1 {
                assert(d[i] == decimal(n / 10)[i]);
            }
        }
        assert(d.last() == c);
        vstd::arithmetic::div_mod::lemma_fundamental_div_mod(n as int, 10);
        assert(digits_value(d) == digits_value(decimal(n / 10)) * 10 + (n % 10));
        assert((n / 10) * 10 == 10 * (n / 10)) by (nonlinear_arith);
    }
}

/// Reading the decimal numeral of any `u32`, with or without a leading `+`, gives
/// the number back; the numeral of a number beyond `u32::MAX` does not read.
pub proof fn lemma_parse_u32_reads_decimal(n: nat)
    ensures
        n <= u32::MAX ==> parse_u32_spec(decimal(n)) == Some(n as u32),
        n <= u32::MAX ==> parse_u32_spec(seq!['+'] + decimal(n)) == Some(n as u32),
        n > u32::MAX ==> parse_u32_spec(decimal(n)) is None,
        n > u32::MAX ==> parse_u32_spec(seq!['+'] + decimal(n)) is None,
{
    lemma_decimal_digits(n);
    let d = decimal(n);
    assert(is_digit(d[0]));
    assert(d[0] != '+');
    assert(unsigned_digits(d) == d);
    assert((seq!['+'] + d)[0] == '+');
    assert(unsigned_digits(seq!['+'] + d) =~= d);
}

/// A text with any character that is not an ASCII digit, other than one leading
/// `+`, does not read; nor does the empty text or a lone `+`.
pub proof fn lemma_parse_u32_rejects_non_digits(s: Seq<char>, i: int)
    requires
        0 <= i < s.len(),
        !(0x30 <= (s[i] as u32) <= 0x39),
        !(i == 0 && s[i] == '+'),
    ensures
        parse_u32_spec(s) is None,
{
    let d = unsigned_digits(s);
    if s.len() > 0 && s[0] == '+' {
        assert(d[i - 1] == s[i]);
        assert(!is_digit(d[i - 1]));
    } else {
        assert(!is_digit(d[i]));
    }
}

/// The empty text and a lone `+` do not read.
pub proof fn lemma_parse_u32_rejects_empty()
    ensures
        parse_u32_spec(Seq::<char>::empty()) is None,
        parse_u32_spec(seq!['+']) is None,
{
    assert(seq!['+'].drop_first() =~= Seq::<char>::empty());
}

proof fn lemma_words_state_no_space(s: Seq<char>)
    requires
        forall|i: int| 0 <= i < s.len() ==> !is_space(#[trigger] s[i]),
    ensures
        words_state(s) == (Seq::<Seq<char>>::empty(), s),
    decreases s.len(),
{
    if s.len() > 0 {
        lemma_words_state_no_space(s.drop_last());
        assert(!is_space(s[s.len() - 1]));
        assert(s.drop_last().push(s.last()) =~= s);
    }
}

proof fn lemma_words_state_concat(p: Seq<char>, b: Seq<char>)
    requires
        words_state(p).1.len() == 0,
    ensures
        words_state(p + b) == (words_state(p).0 + words_state(b).0, words_state(b).1),
    decreases b.len(),
{
    if b.len() == 0 {
        assert(p + b =~= p);
        assert(words_state(p).0 + Seq::<Seq<char>>::empty() =~= words_state(p).0);
        assert(words_state(p).1 =~= Seq::<char>::empty());
    } else {
        lemma_words_state_concat(p, b.drop_last());
        assert((p + b).drop_last() =~= p + b.drop_last());
        assert((p + b).last() == b.last());
        let w = words_state(p).0;
        let prev = words_state(b.drop_last());
        if is_space(b.last()) {
            if prev.1.len() > 0 {
                assert((w + prev.0).push(prev.1) =~= w + prev.0.push(prev.1));
            }
        } else {
        }
    }
}

/// A nonempty run of non-whitespace characters is one word; the empty line has none.
pub proof fn lemma_words_of_run(s: Seq<char>)
    requires
        forall|i: int| 0 <= i < s.len() ==> !is_space(#[trigger] s[i]),
    ensures
        s.len() > 0 ==> words(s) == seq![s],
        s.len() == 0 ==> words(s) == Seq::<Seq<char>>::empty(),
{
    lemma_words_state_no_space(s);
    if s.len() > 0 {
        assert(Seq::<Seq<char>>::empty().push(s) =~= seq![s]);
    }
}

/// Whitespace separates words: the words of `a`, a whitespace character, then `b`
/// are the words of `a` followed by the words of `b`.
pub proof fn lemma_words_split_at_space(a: Seq<char>, c: char, b: Seq<char>)
    requires
        is_space(c),
    ensures
        words(a + seq![c] + b) == words(a) + words(b),
{
    let ac = a + seq![c];
    assert(ac.drop_last() =~= a);
    assert(ac.last() == c);
    let st = words_state(a);
    assert(words_state(ac) == (words(a), Seq::<char>::empty()));
    lemma_words_state_concat(ac, b);
    let sb = words_state(b);
    if sb.1.len() > 0 {
        assert((words(a) + sb.0).push(sb.1) =~= words(a) + sb.0.push(sb.1));
    }
}

/// Splitting on whitespace loses no character: the words, joined, are the line
/// without its whitespace, and no word is empty or holds whitespace.
pub proof fn lemma_words_keep_every_character(s: Seq<char>)
    ensures
        words(s).fold_left(Seq::<char>::empty(), |acc: Seq<char>, w: Seq<char>| acc + w) == s.filter(
            |c: char| !is_space(c),
        ),
        forall|k: int|
            0 <= k < words(s).len() ==> (#[trigger] words(s)[k]).len() > 0 && forall|i: int|
                0 <= i < words(s)[k].len() ==> !is_space(words(s)[k][i]),
    decreases s.len(),
{
    lemma_words_state_joined(s);
    let st = words_state(s);
    let f = |acc: Seq<char>, w: Seq<char>| acc + w;
    if st.1.len() > 0 {
        assert(st.0.push(st.1).drop_last() =~= st.0);
    }
}

/// The finished words joined, then the word in progress, are the text so far
/// without whitespace; every finished word is nonempty and holds no whitespace,
/// and neither does the word in progress.
proof fn lemma_words_state_joined(s: Seq<char>)
    ensures
        words_state(s).0.fold_left(Seq::<char>::empty(), |acc: Seq<char>, w: Seq<char>| acc + w) + words_state(s).1
            == s.filter(|c: char| !is_space(c)),
        forall|k: int|
            0 <= k < words_state(s).0.len() ==> (#[trigger] words_state(s).0[k]).len() > 0 && forall|i: int|
                0 <= i < words_state(s).0[k].len() ==> !is_space(words_state(s).0[k][i]),
        forall|i: int| 0 <= i < words_state(s).1.len() ==> !is_space(#[trigger] words_state(s).1[i]),
    decreases s.len(),
{
    reveal(Seq::filter);
    let f = |acc: Seq<char>, w: Seq<char>| acc + w;
    if s.len() == 0 {
        assert(Seq::<Seq<char>>::empty().fold_left(Seq::<char>::empty(), f) == Seq::<char>::empty());
        assert(Seq::<char>::empty() + Seq::<char>::empty() =~= Seq::<char>::empty());
        assert(s.filter(|c: char| !is_space(c)) =~= Seq::<char>::empty());
    } else {
        lemma_words_state_joined(s.drop_last());
        let prev = words_state(s.drop_last());
        let c = s.last();
        let j = prev.0.fold_left(Seq::<char>::empty(), f);
        if is_space(c) {
            if prev.1.len() > 0 {
                assert(prev.0.push(prev.1).drop_last() =~= prev.0);
                assert(prev.0.push(prev.1).fold_left(Seq::<char>::empty(), f) == f(j, prev.1));
                assert(j + prev.1 + Seq::<char>::empty() =~= j + prev.1);
                assert forall|k: int| 0 <= k < prev.0.push(prev.1).len() implies (#[trigger] prev.0.push(
                    prev.1,
                )[k]).len() > 0 && forall|i: int|
                    0 <= i < prev.0.push(prev.1)[k].len() ==> !is_space(prev.0.push(prev.1)[k][i]) by {
                    if k < prev.0.len() {
                        assert(prev.0.push(prev.1)[k] == prev.0[k]);
                    }
                }
            }
        } else {
            assert(j + prev.1.push(c) =~= (j + prev.1).push(c));
            assert forall|i: int| 0 <= i < prev.1.push(c).len() implies !is_space(#[trigger] prev.1.push(c)[i]) by {
                if i < prev.1.len() {
                    assert(prev.1.push(c)[i] == prev.1[i]);
                }
            }
        }
    }
}

/// The pieces put back together with `sep` between each two.
pub open spec fn join_with(pieces: Seq<Seq<char>>, sep: char) -> Seq<char>
    decreases pieces.len(),
{
    if pieces.len() <= 1 {
        if pieces.len() == 1 {
            pieces[0]
        } else {
            Seq::empty()
        }
    } else {
        join_with(pieces.drop_last(), sep) + seq![sep] + pieces.last()
    }
}

/// Splitting at `sep` loses nothing: there is at least one piece, no piece holds
/// `sep`, and joining the pieces with `sep` gives the text back.
pub proof fn lemma_split_on_rejoins(s: Seq<char>, sep: char)
    ensures
        split_on(s, sep).len() >= 1,
        forall|k: int, i: int|
            0 <= k < split_on(s, sep).len() && 0 <= i < split_on(s, sep)[k].len() ==> #[trigger] split_on(
                s,
                sep,
            )[k][i] != sep,
        join_with(split_on(s, sep), sep) == s,
    decreases s.len(),
{
    if s.len() > 0 {
        let p = s.drop_last();
        lemma_split_on_rejoins(p, sep);
        let prev = split_on(p, sep);
        let c = s.last();
        if c == sep {
            let cur = prev.push(Seq::<char>::empty());
            assert(cur.drop_last() =~= prev);
            assert(join_with(cur, sep) =~= p + seq![sep] + Seq::<char>::empty());
            assert(p.push(c) =~= s);
            assert(p + seq![sep] + Seq::<char>::empty() =~= s);
            assert forall|k: int, i: int| 0 <= k < cur.len() && 0 <= i < cur[k].len() implies #[trigger] cur[k][i] != sep by {
                assert(cur[k] == prev[k]);
            }
        } else {
            let last = prev.len() - 1;
            let cur = prev.update(last, prev.last().push(c));
            assert forall|k: int, i: int| 0 <= k < cur.len() && 0 <= i < cur[k].len() implies #[trigger] cur[k][i] != sep by {
                if k != last {
                    assert(cur[k] == prev[k]);
                } else if i < prev.last().len() {
                    assert(cur[k][i] == prev[last][i]);
                }
            }
            if prev.len() == 1 {
                assert(join_with(prev, sep) == prev[0]);
                assert(join_with(cur, sep) == cur[0]);
                assert(cur[0] =~= p.push(c));
                assert(p.push(c) =~= s);
            } else {
                assert(cur.drop_last() =~= prev.drop_last());
                assert(join_with(prev, sep) == join_with(prev.drop_last(), sep) + seq![sep] + prev.last());
                assert(join_with(cur, sep) == join_with(prev.drop_last(), sep) + seq![sep] + prev.last().push(c));
                assert(join_with(cur, sep) =~= p.push(c));
                assert(p.push(c) =~= s);
            }
        }
    }
}

proof fn lemma_trim_end_shape(s: Seq<char>)
    ensures
        exists|k: int|
            0 <= k <= s.len() && trim_end(s) == s.take(k) && (forall|i: int|
                k <= i < s.len() ==> is_space(#[trigger] s[i])),
        trim_end(s).len() > 0 ==> !is_space(trim_end(s).last()),
    decreases s.len(),
{
    if s.len() > 0 && is_space(s.last()) {
        lemma_trim_end_shape(s.drop_last());
        let k = choose|k: int|
            0 <= k <= s.drop_last().len() && trim_end(s.drop_last()) == s.drop_last().take(k) && (forall|i: int|
                k <= i < s.drop_last().len() ==> is_space(#[trigger] s.drop_last()[i]));
        assert(s.drop_last().take(k) =~= s.take(k));
        assert forall|i: int| k <= i < s.len() implies is_space(#[trigger] s[i]) by {
            if i < s.len() - 1 {
                assert(s[i] == s.drop_last()[i]);
            }
        }
    } else {
        assert(s.take(s.len() as int) =~= s);
    }
}

/// Trimming removes whitespace and nothing else, and all of it at both ends: the
/// text is some whitespace, the trimmed text, then some whitespace, and the
/// trimmed text neither begins nor ends with whitespace.
pub proof fn lemma_trim_shape(s: Seq<char>)
    ensures
        exists|a: int, b: int|
            0 <= a <= b <= s.len() && trim(s) == s.subrange(a, b) && (forall|i: int|
                0 <= i < a ==> is_space(#[trigger] s[i])) && (forall|i: int|
                b <= i < s.len() ==> is_space(#[trigger] s[i])),
        trim(s).len() > 0 ==> !is_space(trim(s)[0]) && !is_space(trim(s).last()),
{
    lemma_leading_spaces_bound(s);
    let a = leading_spaces(s) as int;
    let t = s.skip(a);
    lemma_trim_end_shape(t);
    let k = choose|k: int|
        0 <= k <= t.len() && trim_end(t) == t.take(k) && (forall|i: int| k <= i < t.len() ==> is_space(#[trigger] t[i]));
    assert(t.take(k) =~= s.subrange(a, a + k));
    assert forall|i: int| a + k <= i < s.len() implies is_space(#[trigger] s[i]) by {
        assert(s[i] == t[i - a]);
    }
    if trim(s).len() > 0 {
        assert(trim(s)[0] == s[a]);
    }
}

} // verus!
