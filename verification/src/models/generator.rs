//! Password generator and strength estimate.

use vstd::prelude::*;

use rand::Rng;

use crate::text::{chars_of, decimal, decimal_string, extend_chars, owned, string_of};

verus! {

broadcast use vstd::seq_lib::group_seq_properties;

/// Password strength.
#[derive(Debug, Clone, Copy, PartialEq, Eq, Structural)]
pub enum Strength {
    Weak,
    Medium,
    Strong,
}

/// The label of a strength, as it is shown to the user.
pub open spec fn strength_label(s: Strength) -> Seq<char> {
    match s {
        Strength::Weak => "Слабый"@,
        Strength::Medium => "Средний"@,
        Strength::Strong => "Стойкий"@,
    }
}

impl Strength {
    /// The label shown to the user.
    pub fn label(self) -> (s: &'static str)
        ensures
            s@ == strength_label(self),
    {
        match self {
            Strength::Weak => "Слабый",
            Strength::Medium => "Средний",
            Strength::Strong => "Стойкий",
        }
    }
}

/// Generator settings.
#[derive(Debug, Clone)]
pub struct GeneratorOptions {
    pub length: usize,
    pub lowercase: bool,
    pub uppercase: bool,
    pub digits: bool,
    pub symbols: bool,
    /// Leave out look-alike characters: l 1 I O 0 o
    pub exclude_similar: bool,
    /// Minimum number of digits.
    pub min_digits: usize,
    /// Minimum number of symbols.
    pub min_symbols: usize,
}

impl Default for GeneratorOptions {
    fn default() -> (o: GeneratorOptions)
        ensures
            o.length == 20,
            o.lowercase && o.uppercase && o.digits && o.symbols && o.exclude_similar,
            o.min_digits == 2,
            o.min_symbols == 2,
    {
        GeneratorOptions {
            length: 20,
            lowercase: true,
            uppercase: true,
            digits: true,
            symbols: true,
            exclude_similar: true,
            min_digits: 2,
            min_symbols: 2,
        }
    }
}

/// Lower-case letters.
pub const LOWER: &'static str = "abcdefghijklmnopqrstuvwxyz";

/// Upper-case letters.
pub const UPPER: &'static str = "ABCDEFGHIJKLMNOPQRSTUVWXYZ";

/// Digits.
pub const DIGITS: &'static str = "0123456789";

/// Symbols.
pub const SYMBOLS: &'static str = "!@#$%^&*()-_=+[]{};:,.<>?/~";

/// Look-alike characters.
pub const SIMILAR: &'static str = "l1IoO0";

/// A set without the look-alike characters when `exclude_similar` is set.
pub open spec fn filtered(set: Seq<char>, exclude_similar: bool) -> Seq<char> {
    if exclude_similar {
        set.filter(|c: char| !SIMILAR@.contains(c))
    } else {
        set
    }
}

fn is_similar(c: char) -> (r: bool)
    ensures
        r == SIMILAR@.contains(c),
{
    let s = chars_of(SIMILAR);
    let mut i: usize = 0;
    while i < s.len()
        invariant
            i <= s@.len(),
            s@ == SIMILAR@,
            forall|j: int| 0 <= j < i ==> s@[j] != c,
        decreases s@.len() - i,
    {
        if s[i] == c {
            return true;
        }
        i = i + 1;
    }
    false
}

fn filter_chars(set: &str, exclude_similar: bool) -> (r: Vec<char>)
    ensures
        r@ == filtered(set@, exclude_similar),
{
    let cs = chars_of(set);
    if !exclude_similar {
        return cs;
    }
    let ghost pred = |c: char| !SIMILAR@.contains(c);
    let mut out: Vec<char> = Vec::new();
    let mut i: usize = 0;
    assert(cs@.take(0) =~= Seq::<char>::empty());
    while i < cs.len()
        invariant
            i <= cs@.len(),
            cs@ == set@,
            pred == (|c: char| !SIMILAR@.contains(c)),
            out@ == cs@.take(i as int).filter(pred),
        decreases cs@.len() - i,
    {
        proof {
            assert(cs@.take(i + 1) =~= cs@.take(i as int).push(cs@[i as int]));
            cs@.take(i as int).lemma_filter_push(cs@[i as int], pred);
        }
        if !is_similar(cs[i]) {
            out.push(cs[i]);
        }
        i = i + 1;
    }
    assert(cs@.take(cs@.len() as int) =~= cs@);
    out
}

/// A character set, without the look-alike characters when asked.
pub fn filter_set(set: &str, exclude_similar: bool) -> (r: String)
    ensures
        r@ == filtered(set@, exclude_similar),
{
    string_of(&filter_chars(set, exclude_similar))
}

/// The set if it is chosen, nothing otherwise.
pub open spec fn part(on: bool, set: Seq<char>) -> Seq<char> {
    if on {
        set
    } else {
        Seq::empty()
    }
}

/// The lower-case set in use.
pub open spec fn lower_set(o: GeneratorOptions) -> Seq<char> {
    filtered(LOWER@, o.exclude_similar)
}

/// The upper-case set in use.
pub open spec fn upper_set(o: GeneratorOptions) -> Seq<char> {
    filtered(UPPER@, o.exclude_similar)
}

/// The digit set in use.
pub open spec fn digit_set(o: GeneratorOptions) -> Seq<char> {
    filtered(DIGITS@, o.exclude_similar)
}

/// The symbol set (never filtered).
pub open spec fn symbol_set() -> Seq<char> {
    SYMBOLS@
}

/// All characters that a password may hold: the chosen sets, in order.
pub open spec fn alphabet(o: GeneratorOptions) -> Seq<char> {
    part(o.lowercase, lower_set(o)) + part(o.uppercase, upper_set(o)) + part(
        o.digits,
        digit_set(o),
    ) + part(o.symbols, symbol_set())
}

/// How many sets are chosen.
pub open spec fn chosen_sets(o: GeneratorOptions) -> nat {
    (if o.lowercase {
        1nat
    } else {
        0
    }) + (if o.uppercase {
        1nat
    } else {
        0
    }) + (if o.digits {
        1nat
    } else {
        0
    }) + (if o.symbols {
        1nat
    } else {
        0
    })
}

/// The minimum number of digits and symbols asked for.
pub open spec fn required_special(o: GeneratorOptions) -> nat {
    (if o.digits {
        o.min_digits as nat
    } else {
        0
    }) + (if o.symbols {
        o.min_symbols as nat
    } else {
        0
    })
}

/// The number of characters of `s` that belong to `set`.
pub open spec fn count_in(s: Seq<char>, set: Seq<char>) -> nat
    decreases s.len(),
{
    if s.len() == 0 {
        0
    } else {
        count_in(s.drop_last(), set) + (if set.contains(s.last()) {
            1nat
        } else {
            0
        })
    }
}

/// A password that meets the settings: the asked length, only characters of
/// the chosen sets, at least one of each chosen set, and the asked minimum of
/// digits and symbols on top of that one.
pub open spec fn meets(o: GeneratorOptions, p: Seq<char>) -> bool {
    &&& p.len() == o.length
    &&& forall|k: int| 0 <= k < p.len() ==> alphabet(o).contains(#[trigger] p[k])
    &&& o.lowercase ==> count_in(p, lower_set(o)) >= 1
    &&& o.uppercase ==> count_in(p, upper_set(o)) >= 1
    &&& o.digits ==> count_in(p, digit_set(o)) >= o.min_digits + 1
    &&& o.symbols ==> count_in(p, symbol_set()) >= o.min_symbols + 1
}

/// The message for a length outside 8..=64.
pub open spec fn length_error() -> Seq<char> {
    "Длина пароля должна быть от 8 до 64 символов"@
}

/// The message for no chosen set.
pub open spec fn no_set_error() -> Seq<char> {
    "Не выбран ни один набор символов"@
}

/// The message for minimums that exceed the length.
pub open spec fn required_error(required: nat, length: nat) -> Seq<char> {
    "Требуется минимум "@ + decimal(required) + " цифр/спецсимволов, но длина пароля "@ + decimal(
        length,
    )
}

/// The message for mandatory characters that exceed the length.
pub open spec fn too_many_error() -> Seq<char> {
    "Слишком много обязательных символов для выбранной длины"@
}

/// `rand::Rng::gen_range(0..n)` on the thread-local generator: a random
/// index below `n`.
#[verifier::external_body]
fn random_below(n: usize) -> (r: usize)
    requires
        n > 0,
    ensures
        r < n,
{
    rand::thread_rng().gen_range(0..n)
}

fn pick(set: &Vec<char>) -> (c: char)
    requires
        set@.len() > 0,
    ensures
        set@.contains(c),
{
    let i = random_below(set.len());
    assert(set@[i as int] == set@[i as int]);
    set[i]
}

proof fn lemma_count_push(s: Seq<char>, c: char, set: Seq<char>)
    ensures
        count_in(s.push(c), set) == count_in(s, set) + (if set.contains(c) {
            1nat
        } else {
            0
        }),
{
    assert(s.push(c).drop_last() =~= s);
}

proof fn lemma_count_add(a: Seq<char>, b: Seq<char>, set: Seq<char>)
    ensures
        count_in(a + b, set) == count_in(a, set) + count_in(b, set),
    decreases b.len(),
{
    if b.len() == 0 {
        assert(a + b =~= a);
    } else {
        assert((a + b).drop_last() =~= a + b.drop_last());
        assert((a + b).last() == b.last());
        lemma_count_add(a, b.drop_last(), set);
    }
}

proof fn lemma_count_swap(s: Seq<char>, i: int, j: int, set: Seq<char>)
    requires
        0 <= j <= i < s.len(),
    ensures
        count_in(s.update(i, s[j]).update(j, s[i]), set) == count_in(s, set),
{
    let t = s.update(i, s[j]).update(j, s[i]);
    if i == j {
        assert(t =~= s);
    } else {
        let a = s.subrange(0, j);
        let m = s.subrange(j + 1, i);
        let z = s.subrange(i + 1, s.len() as int);
        assert(s =~= a + seq![s[j]] + m + seq![s[i]] + z);
        assert(t =~= a + seq![s[i]] + m + seq![s[j]] + z);
        lemma_count_add(a + seq![s[j]] + m + seq![s[i]], z, set);
        lemma_count_add(a + seq![s[j]] + m, seq![s[i]], set);
        lemma_count_add(a + seq![s[j]], m, set);
        lemma_count_add(a, seq![s[j]], set);
        lemma_count_add(a + seq![s[i]] + m + seq![s[j]], z, set);
        lemma_count_add(a + seq![s[i]] + m, seq![s[j]], set);
        lemma_count_add(a + seq![s[i]], m, set);
        lemma_count_add(a, seq![s[i]], set);
    }
}

proof fn lemma_not_similar(c: char, k: int)
    requires
        0 <= k < 26,
        c == LOWER@[k] || c == UPPER@[k] || (k < 10 && c == DIGITS@[k]),
        c == 'a' || c == 'A' || c == '2',
    ensures
        !SIMILAR@.contains(c),
{
    reveal_strlit("l1IoO0");
    if SIMILAR@.contains(c) {
        let j = choose|j: int| 0 <= j < SIMILAR@.len() && SIMILAR@[j] == c;
        assert(j == 0 || j == 1 || j == 2 || j == 3 || j == 4 || j == 5);
    }
}

proof fn lemma_sets_nonempty(o: GeneratorOptions)
    ensures
        lower_set(o).len() > 0,
        upper_set(o).len() > 0,
        digit_set(o).len() > 0,
        symbol_set().len() > 0,
{
    reveal_strlit("abcdefghijklmnopqrstuvwxyz");
    reveal_strlit("ABCDEFGHIJKLMNOPQRSTUVWXYZ");
    reveal_strlit("0123456789");
    reveal_strlit("!@#$%^&*()-_=+[]{};:,.<>?/~");
    let pred = |c: char| !SIMILAR@.contains(c);
    if o.exclude_similar {
        lemma_not_similar('a', 0);
        lemma_not_similar('A', 0);
        lemma_not_similar('2', 2);
        assert(LOWER@[0] == 'a');
        assert(UPPER@[0] == 'A');
        assert(LOWER@.contains('a'));
        assert(UPPER@.contains('A'));
        assert(DIGITS@[2] == '2');
        assert(DIGITS@.contains('2'));
        LOWER@.lemma_filter_contains_rev(pred, 'a');
        UPPER@.lemma_filter_contains_rev(pred, 'A');
        DIGITS@.lemma_filter_contains_rev(pred, '2');
    }
}

proof fn lemma_in_alphabet(o: GeneratorOptions, c: char)
    requires
        (o.lowercase && lower_set(o).contains(c)) || (o.uppercase && upper_set(o).contains(c)) || (
        o.digits && digit_set(o).contains(c)) || (o.symbols && symbol_set().contains(c)),
    ensures
        alphabet(o).contains(c),
{
    let a = part(o.lowercase, lower_set(o));
    let b = part(o.uppercase, upper_set(o));
    let d = part(o.digits, digit_set(o));
    let s = part(o.symbols, symbol_set());
    let w = alphabet(o);
    assert(w =~= a + b + d + s);
    if o.lowercase && lower_set(o).contains(c) {
        let k = choose|k: int| 0 <= k < a.len() && a[k] == c;
        assert(w[k] == c);
    } else if o.uppercase && upper_set(o).contains(c) {
        let k = choose|k: int| 0 <= k < b.len() && b[k] == c;
        assert(w[a.len() + k] == c);
    } else if o.digits && digit_set(o).contains(c) {
        let k = choose|k: int| 0 <= k < d.len() && d[k] == c;
        assert(w[a.len() + b.len() + k] == c);
    } else {
        let k = choose|k: int| 0 <= k < s.len() && s[k] == c;
        assert(w[a.len() + b.len() + d.len() + k] == c);
    }
}

/// The running state of generation: the counts of each set and membership
/// in the alphabet.
pub open spec fn progress(
    o: GeneratorOptions,
    p: Seq<char>,
    nl: nat,
    nu: nat,
    nd: nat,
    ns: nat,
) -> bool {
    &&& forall|k: int| 0 <= k < p.len() ==> alphabet(o).contains(#[trigger] p[k])
    &&& count_in(p, lower_set(o)) >= nl
    &&& count_in(p, upper_set(o)) >= nu
    &&& count_in(p, digit_set(o)) >= nd
    &&& count_in(p, symbol_set()) >= ns
}

proof fn lemma_progress_push(
    o: GeneratorOptions,
    p: Seq<char>,
    c: char,
    nl: nat,
    nu: nat,
    nd: nat,
    ns: nat,
)
    requires
        progress(o, p, nl, nu, nd, ns),
        alphabet(o).contains(c),
    ensures
        progress(o, p.push(c), nl, nu, nd, ns),
        lower_set(o).contains(c) ==> progress(o, p.push(c), nl + 1, nu, nd, ns),
        upper_set(o).contains(c) ==> progress(o, p.push(c), nl, nu + 1, nd, ns),
        digit_set(o).contains(c) ==> progress(o, p.push(c), nl, nu, nd + 1, ns),
        symbol_set().contains(c) ==> progress(o, p.push(c), nl, nu, nd, ns + 1),
{
    lemma_count_push(p, c, lower_set(o));
    lemma_count_push(p, c, upper_set(o));
    lemma_count_push(p, c, digit_set(o));
    lemma_count_push(p, c, symbol_set());
    assert forall|k: int| 0 <= k < p.push(c).len() implies alphabet(o).contains(
        #[trigger] p.push(c)[k],
    ) by {
        if k < p.len() {
            assert(p.push(c)[k] == p[k]);
        }
    }
}

/// Generates a password; an error when the settings contradict each other.
pub fn generate(opts: &GeneratorOptions) -> (r: Result<String, String>)
    requires
        8 <= opts.length <= 64 && chosen_sets(*opts) > 0 ==> required_special(*opts) <= usize::MAX,
    ensures
        !(8 <= opts.length <= 64) ==> r is Err && r->Err_0@ == length_error(),
        8 <= opts.length <= 64 && chosen_sets(*opts) == 0 ==> r is Err && r->Err_0@ == no_set_error(),
        8 <= opts.length <= 64 && chosen_sets(*opts) > 0 && required_special(*opts) > opts.length ==> r is Err && r->Err_0@ == required_error(required_special(*opts), opts.length as nat),
        8 <= opts.length <= 64 && chosen_sets(*opts) > 0 && required_special(*opts) <= opts.length && required_special(*opts) + chosen_sets(*opts) > opts.length ==> r is Err && r->Err_0@ == too_many_error(),
        8 <= opts.length <= 64 && required_special(*opts) + chosen_sets(*opts) <= opts.length && chosen_sets(*opts) > 0 ==> r is Ok && meets(*opts, r->Ok_0@),
{
    if !(8 <= opts.length && opts.length <= 64) {
        return Err(owned("Длина пароля должна быть от 8 до 64 символов"));
    }
    let ghost o = *opts;
    proof {
        lemma_sets_nonempty(o);
    }
    let ls = filter_chars(LOWER, opts.exclude_similar);
    let us = filter_chars(UPPER, opts.exclude_similar);
    let ds = filter_chars(DIGITS, opts.exclude_similar);
    let ss = chars_of(SYMBOLS);
    let mut nsets: usize = 0;
    if opts.lowercase {
        nsets = nsets + 1;
    }
    if opts.uppercase {
        nsets = nsets + 1;
    }
    if opts.digits {
        nsets = nsets + 1;
    }
    if opts.symbols {
        nsets = nsets + 1;
    }
    if nsets == 0 {
        return Err(owned("Не выбран ни один набор символов"));
    }
    let mut required: usize = 0;
    if opts.digits {
        required = opts.min_digits;
    }
    if opts.symbols {
        required = required + opts.min_symbols;
    }
    if required > opts.length {
        let msg = owned("Требуется минимум ").concat(decimal_string(required).as_str()).concat(
            " цифр/спецсимволов, но длина пароля ",
        ).concat(decimal_string(opts.length).as_str());
        return Err(msg);
    }
    let mut chars: Vec<char> = Vec::new();
    let ghost mut nd: nat = 0;
    let ghost mut ns: nat = 0;
    assert(progress(o, chars@, 0, 0, 0, 0));
    if opts.digits {
        let mut k: usize = 0;
        while k < opts.min_digits
            invariant
                o == *opts,
                o.digits,
                k <= o.min_digits,
                chars@.len() == k,
                ds@ == digit_set(o),
                ds@.len() > 0,
                progress(o, chars@, 0, 0, k as nat, 0),
            decreases o.min_digits - k,
        {
            let c = pick(&ds);
            proof {
                lemma_in_alphabet(o, c);
                lemma_progress_push(o, chars@, c, 0, 0, k as nat, 0);
            }
            chars.push(c);
            k = k + 1;
        }
        proof {
            nd = o.min_digits as nat;
        }
    }
    let ghost n0 = chars@.len();
    if opts.symbols {
        let mut k: usize = 0;
        while k < opts.min_symbols
            invariant
                o == *opts,
                o.symbols,
                k <= o.min_symbols,
                chars@.len() == n0 + k,
                ss@ == symbol_set(),
                ss@.len() > 0,
                progress(o, chars@, 0, 0, nd, k as nat),
            decreases o.min_symbols - k,
        {
            let c = pick(&ss);
            proof {
                lemma_in_alphabet(o, c);
                lemma_progress_push(o, chars@, c, 0, 0, nd, k as nat);
            }
            chars.push(c);
            k = k + 1;
        }
        proof {
            ns = o.min_symbols as nat;
        }
    }
    assert(chars@.len() == required);
    let ghost mut nl: nat = 0;
    let ghost mut nu: nat = 0;
    if opts.lowercase {
        let c = pick(&ls);
        proof {
            lemma_in_alphabet(o, c);
            lemma_progress_push(o, chars@, c, nl, nu, nd, ns);
            nl = 1;
        }
        chars.push(c);
    }
    if opts.uppercase {
        let c = pick(&us);
        proof {
            lemma_in_alphabet(o, c);
            lemma_progress_push(o, chars@, c, nl, nu, nd, ns);
            nu = 1;
        }
        chars.push(c);
    }
    if opts.digits {
        let c = pick(&ds);
        proof {
            lemma_in_alphabet(o, c);
            lemma_progress_push(o, chars@, c, nl, nu, nd, ns);
            nd = nd + 1;
        }
        chars.push(c);
    }
    if opts.symbols {
        let c = pick(&ss);
        proof {
            lemma_in_alphabet(o, c);
            lemma_progress_push(o, chars@, c, nl, nu, nd, ns);
            ns = ns + 1;
        }
        chars.push(c);
    }
    assert(chars@.len() == required_special(o) + chosen_sets(o));
    if chars.len() > opts.length {
        return Err(owned("Слишком много обязательных символов для выбранной длины"));
    }
    let mut all: Vec<char> = Vec::new();
    if opts.lowercase {
        extend_chars(&mut all, &ls);
    }
    if opts.uppercase {
        extend_chars(&mut all, &us);
    }
    if opts.digits {
        extend_chars(&mut all, &ds);
    }
    if opts.symbols {
        extend_chars(&mut all, &ss);
    }
    assert(all@ =~= alphabet(o));
    assert(all@.len() > 0) by {
        if o.lowercase {
            assert(all@.len() >= ls@.len());
        } else if o.uppercase {
            assert(all@.len() >= us@.len());
        } else if o.digits {
            assert(all@.len() >= ds@.len());
        } else {
            assert(all@.len() >= ss@.len());
        }
    }
    while chars.len() < opts.length
        invariant
            o == *opts,
            all@ == alphabet(o),
            all@.len() > 0,
            chars@.len() <= o.length,
            progress(o, chars@, nl, nu, nd, ns),
        decreases o.length - chars@.len(),
    {
        let c = pick(&all);
        proof {
            lemma_progress_push(o, chars@, c, nl, nu, nd, ns);
        }
        chars.push(c);
    }
    // Fisher–Yates shuffle.
    let n = chars.len();
    let mut i: usize = n;
    while i > 1
        invariant
            o == *opts,
            n == o.length,
            chars@.len() == n,
            1 <= i <= n,
            progress(o, chars@, nl, nu, nd, ns),
        decreases i,
    {
        i = i - 1;
        let j = random_below(i + 1);
        let ghost before = chars@;
        let a = chars[i];
        let b = chars[j];
        chars.set(i, b);
        chars.set(j, a);
        proof {
            assert(chars@ =~= before.update(i as int, before[j as int]).update(j as int, before[i as int]));
            lemma_count_swap(before, i as int, j as int, lower_set(o));
            lemma_count_swap(before, i as int, j as int, upper_set(o));
            lemma_count_swap(before, i as int, j as int, digit_set(o));
            lemma_count_swap(before, i as int, j as int, symbol_set());
            assert forall|k: int| 0 <= k < chars@.len() implies alphabet(o).contains(#[trigger] chars@[k]) by {
                if k == i {
                    assert(chars@[k] == before[j as int]);
                } else if k == j {
                    assert(chars@[k] == before[i as int]);
                } else {
                    assert(chars@[k] == before[k]);
                }
            }
        }
    }
    Ok(string_of(&chars))
}

// ---------------------------------------------------------------------------
// Strength
// ---------------------------------------------------------------------------
/// `b` to the power `e`.
pub open spec fn power(b: nat, e: nat) -> nat
    decreases e,
{
    if e == 0 {
        1
    } else {
        b * power(b, (e - 1) as nat)
    }
}

/// ASCII lower-case letter.
pub open spec fn is_lower(c: char) -> bool {
    'a' <= c <= 'z'
}

/// ASCII upper-case letter.
pub open spec fn is_upper(c: char) -> bool {
    'A' <= c <= 'Z'
}

/// ASCII digit.
pub open spec fn is_digit(c: char) -> bool {
    '0' <= c <= '9'
}

/// The size of the alphabet a password draws from: 26 for lower-case, 26
/// for upper-case, 10 for digits, 30 for anything else, each counted when
/// the password holds such a character.
pub open spec fn alphabet_size(p: Seq<char>) -> nat {
    (if exists|i: int| 0 <= i < p.len() && is_lower(#[trigger] p[i]) {
        26nat
    } else {
        0
    }) + (if exists|i: int| 0 <= i < p.len() && is_upper(#[trigger] p[i]) {
        26nat
    } else {
        0
    }) + (if exists|i: int| 0 <= i < p.len() && is_digit(#[trigger] p[i]) {
        10nat
    } else {
        0
    }) + (if exists|i: int|
        0 <= i < p.len() && !(is_lower(#[trigger] p[i]) || is_upper(p[i]) || is_digit(p[i])) {
        30nat
    } else {
        0
    })
}

/// 2^50.
pub open spec fn two_pow_50() -> nat {
    0x4_0000_0000_0000
}

/// 2^80.
pub open spec fn two_pow_80() -> nat {
    0x1_0000_0000_0000_0000_0000
}

/// The strength of a password by its entropy `len * log2(alphabet)` in bits:
/// weak below 50 bits, medium below 80, strong from 80 on; weak when the
/// alphabet is empty. Since log2 is increasing, `len * log2(a) < 50` exactly
/// when `a^len < 2^50`.
pub open spec fn strength_spec(p: Seq<char>) -> Strength {
    let a = alphabet_size(p);
    if a == 0 {
        Strength::Weak
    } else if power(a, p.len()) < two_pow_50() {
        Strength::Weak
    } else if power(a, p.len()) < two_pow_80() {
        Strength::Medium
    } else {
        Strength::Strong
    }
}

proof fn lemma_power_mono(a: nat, k: nat, n: nat)
    requires
        a >= 1,
        k <= n,
    ensures
        power(a, k) <= power(a, n),
    decreases n - k,
{
    if k < n {
        lemma_power_mono(a, k, (n - 1) as nat);
        assert(power(a, n) == a * power(a, (n - 1) as nat));
        assert(a * power(a, (n - 1) as nat) >= power(a, (n - 1) as nat)) by (nonlinear_arith)
            requires
                a >= 1,
        ;
    }
}

/// The order of the strengths: weak, medium, strong.
pub open spec fn strength_rank(s: Strength) -> nat {
    match s {
        Strength::Weak => 0,
        Strength::Medium => 1,
        Strength::Strong => 2,
    }
}

proof fn lemma_power_base_mono(a: nat, b: nat, n: nat)
    requires
        a <= b,
    ensures
        power(a, n) <= power(b, n),
    decreases n,
{
    if n > 0 {
        lemma_power_base_mono(a, b, (n - 1) as nat);
        let x = power(a, (n - 1) as nat);
        let y = power(b, (n - 1) as nat);
        assert(a * x <= b * y) by (nonlinear_arith)
            requires
                a <= b,
                x <= y,
        ;
    }
}

/// A password never gets weaker when a character is added to it.
pub proof fn lemma_strength_grows(p: Seq<char>, c: char)
    ensures
        strength_rank(strength_spec(p)) <= strength_rank(strength_spec(p.push(c))),
{
    let q = p.push(c);
    assert forall|i: int| 0 <= i < p.len() implies q[i] == p[i] by {}
    if exists|i: int| 0 <= i < p.len() && is_lower(#[trigger] p[i]) {
        let i = choose|i: int| 0 <= i < p.len() && is_lower(#[trigger] p[i]);
        assert(is_lower(q[i]));
    }
    if exists|i: int| 0 <= i < p.len() && is_upper(#[trigger] p[i]) {
        let i = choose|i: int| 0 <= i < p.len() && is_upper(#[trigger] p[i]);
        assert(is_upper(q[i]));
    }
    if exists|i: int| 0 <= i < p.len() && is_digit(#[trigger] p[i]) {
        let i = choose|i: int| 0 <= i < p.len() && is_digit(#[trigger] p[i]);
        assert(is_digit(q[i]));
    }
    if exists|i: int| 0 <= i < p.len() && !(is_lower(#[trigger] p[i]) || is_upper(p[i]) || is_digit(p[i])) {
        let i = choose|i: int| 0 <= i < p.len() && !(is_lower(#[trigger] p[i]) || is_upper(p[i]) || is_digit(p[i]));
        assert(!(is_lower(q[i]) || is_upper(q[i]) || is_digit(q[i])));
    }
    let a = alphabet_size(p);
    let b = alphabet_size(q);
    assert(a <= b);
    if a > 0 {
        lemma_power_base_mono(a, b, q.len());
        lemma_power_mono(a, p.len(), q.len());
    }
}

/// The strength that an alphabet of `a` characters gives a password of
/// `n` characters: weak below 2^50 passwords, medium below 2^80, strong
/// from there on.
proof fn lemma_strength_by_alphabet(p: Seq<char>, a: nat)
    requires
        a > 0,
        alphabet_size(p) == a,
    ensures
        strength_spec(p) == (if power(a, p.len()) < 0x4_0000_0000_0000 {
            Strength::Weak
        } else if power(a, p.len()) < 0x1_0000_0000_0000_0000_0000 {
            Strength::Medium
        } else {
            Strength::Strong
        }),
{
}

/// A password of lower-case letters alone draws from 26 characters.
pub proof fn lemma_strength_lower_only(p: Seq<char>)
    requires
        p.len() > 0,
        forall|i: int| 0 <= i < p.len() ==> 'a' <= #[trigger] p[i] <= 'z',
    ensures
        strength_spec(p) == (if power(26, p.len()) < 0x4_0000_0000_0000 {
            Strength::Weak
        } else if power(26, p.len()) < 0x1_0000_0000_0000_0000_0000 {
            Strength::Medium
        } else {
            Strength::Strong
        }),
{
    assert(is_lower(p[0]));
    assert(!exists|i: int| 0 <= i < p.len() && is_upper(#[trigger] p[i]));
    assert(!exists|i: int| 0 <= i < p.len() && is_digit(#[trigger] p[i]));
    assert(!exists|i: int| 0 <= i < p.len() && !(is_lower(#[trigger] p[i]) || is_upper(p[i]) || is_digit(p[i])));
    lemma_strength_by_alphabet(p, 26);
}

/// A password of digits alone draws from 10 characters.
pub proof fn lemma_strength_digits_only(p: Seq<char>)
    requires
        p.len() > 0,
        forall|i: int| 0 <= i < p.len() ==> '0' <= #[trigger] p[i] <= '9',
    ensures
        strength_spec(p) == (if power(10, p.len()) < 0x4_0000_0000_0000 {
            Strength::Weak
        } else if power(10, p.len()) < 0x1_0000_0000_0000_0000_0000 {
            Strength::Medium
        } else {
            Strength::Strong
        }),
{
    assert(is_digit(p[0]));
    assert(!exists|i: int| 0 <= i < p.len() && is_upper(#[trigger] p[i]));
    assert(!exists|i: int| 0 <= i < p.len() && is_lower(#[trigger] p[i]));
    assert(!exists|i: int| 0 <= i < p.len() && !(is_lower(#[trigger] p[i]) || is_upper(p[i]) || is_digit(p[i])));
    lemma_strength_by_alphabet(p, 10);
}

/// A password of letters of both cases and digits, and nothing else, with
/// at least one of each, draws from 26 + 26 + 10 = 62 characters.
pub proof fn lemma_strength_alphanumeric(p: Seq<char>, l: int, u: int, d: int)
    requires
        0 <= l < p.len() && 'a' <= p[l] <= 'z',
        0 <= u < p.len() && 'A' <= p[u] <= 'Z',
        0 <= d < p.len() && '0' <= p[d] <= '9',
        forall|i: int|
            0 <= i < p.len() ==> ('a' <= #[trigger] p[i] <= 'z' || 'A' <= p[i] <= 'Z' || '0' <= p[i] <= '9'),
    ensures
        strength_spec(p) == (if power(62, p.len()) < 0x4_0000_0000_0000 {
            Strength::Weak
        } else if power(62, p.len()) < 0x1_0000_0000_0000_0000_0000 {
            Strength::Medium
        } else {
            Strength::Strong
        }),
{
    assert(is_lower(p[l]) && is_upper(p[u]) && is_digit(p[d]));
    assert(!exists|i: int| 0 <= i < p.len() && !(is_lower(#[trigger] p[i]) || is_upper(p[i]) || is_digit(p[i])));
    lemma_strength_by_alphabet(p, 62);
}

/// A password with a lower-case letter, an upper-case letter, a digit and a
/// character that is none of those draws from 26 + 26 + 10 + 30 = 92
/// characters.
pub proof fn lemma_strength_all_classes(p: Seq<char>, l: int, u: int, d: int, o: int)
    requires
        0 <= l < p.len() && 'a' <= p[l] <= 'z',
        0 <= u < p.len() && 'A' <= p[u] <= 'Z',
        0 <= d < p.len() && '0' <= p[d] <= '9',
        0 <= o < p.len() && !('a' <= p[o] <= 'z' || 'A' <= p[o] <= 'Z' || '0' <= p[o] <= '9'),
    ensures
        strength_spec(p) == (if power(92, p.len()) < 0x4_0000_0000_0000 {
            Strength::Weak
        } else if power(92, p.len()) < 0x1_0000_0000_0000_0000_0000 {
            Strength::Medium
        } else {
            Strength::Strong
        }),
{
    assert(is_lower(p[l]) && is_upper(p[u]) && is_digit(p[d]));
    assert(!(is_lower(p[o]) || is_upper(p[o]) || is_digit(p[o])));
    lemma_strength_by_alphabet(p, 92);
}

/// Heuristic strength estimate: length and variety of characters.
pub fn strength(password: &str) -> (s: Strength)
    ensures
        s == strength_spec(password@),
{
    let cs = chars_of(password);
    let len = cs.len();
    let mut lower = false;
    let mut upper = false;
    let mut digit = false;
    let mut other = false;
    let mut i: usize = 0;
    while i < len
        invariant
            i <= len,
            len == cs@.len(),
            cs@ == password@,
            lower == (exists|j: int| 0 <= j < i && is_lower(#[trigger] cs@[j])),
            upper == (exists|j: int| 0 <= j < i && is_upper(#[trigger] cs@[j])),
            digit == (exists|j: int| 0 <= j < i && is_digit(#[trigger] cs@[j])),
            other == (exists|j: int|
                0 <= j < i && !(is_lower(#[trigger] cs@[j]) || is_upper(cs@[j]) || is_digit(
                    cs@[j],
                ))),
        decreases len - i,
    {
        let c = cs[i];
        if 'a' <= c && c <= 'z' {
            lower = true;
        } else if 'A' <= c && c <= 'Z' {
            upper = true;
        } else if '0' <= c && c <= '9' {
            digit = true;
        } else {
            other = true;
        }
        i = i + 1;
    }
    let mut a: u128 = 0;
    if lower {
        a = a + 26;
    }
    if upper {
        a = a + 26;
    }
    if digit {
        a = a + 10;
    }
    if other {
        a = a + 30;
    }
    assert(a == alphabet_size(password@));
    if a == 0 {
        return Strength::Weak;
    }
    let limit: u128 = 0x1_0000_0000_0000_0000_0000;
    let mut p: u128 = 1;
    let mut k: usize = 0;
    while k < len && p < limit
        invariant
            k <= len,
            1 <= a <= 92,
            p == power(a as nat, k as nat),
            limit == two_pow_80(),
        decreases len - k,
    {
        assert(p * a < 0x1_0000_0000_0000_0000_0000 * 92) by (nonlinear_arith)
            requires
                p < 0x1_0000_0000_0000_0000_0000u128,
                a <= 92,
        ;
        assert(power(a as nat, (k + 1) as nat) == a * power(a as nat, k as nat));
        assert(p * a == a * p) by (nonlinear_arith);
        p = p * a;
        k = k + 1;
    }
    proof {
        lemma_power_mono(a as nat, k as nat, len as nat);
    }
    if p < 0x4_0000_0000_0000 {
        Strength::Weak
    } else if p < limit {
        Strength::Medium
    } else {
        Strength::Strong
    }
}

/// With `exclude_similar`, a password that meets the settings holds none of
/// the look-alike characters `l 1 I O 0 o` (the symbols hold none either).
pub proof fn lemma_no_look_alikes(o: GeneratorOptions, p: Seq<char>)
    requires
        meets(o, p),
        o.exclude_similar,
    ensures
        forall|k: int| 0 <= k < p.len() ==> !SIMILAR@.contains(#[trigger] p[k]),
{
    let pred = |c: char| !SIMILAR@.contains(c);
    reveal_strlit("l1IoO0");
    reveal_strlit("!@#$%^&*()-_=+[]{};:,.<>?/~");
    assert forall|k: int| 0 <= k < p.len() implies !SIMILAR@.contains(#[trigger] p[k]) by {
        let c = p[k];
        assert(alphabet(o).contains(c));
        let a = part(o.lowercase, lower_set(o));
        let b = part(o.uppercase, upper_set(o));
        let d = part(o.digits, digit_set(o));
        let sy = part(o.symbols, symbol_set());
        assert(alphabet(o) =~= a + b + d + sy);
        let w = alphabet(o);
        let j = choose|j: int| 0 <= j < w.len() && w[j] == c;
        if j < a.len() {
            LOWER@.lemma_filter_pred(pred, j);
        } else if j < a.len() + b.len() {
            UPPER@.lemma_filter_pred(pred, j - a.len());
        } else if j < a.len() + b.len() + d.len() {
            DIGITS@.lemma_filter_pred(pred, j - a.len() - b.len());
        } else {
            let q = j - a.len() - b.len() - d.len();
            assert(sy[q] == c);
            assert(0 <= q < 27);
            if SIMILAR@.contains(c) {
                let t = choose|t: int| 0 <= t < SIMILAR@.len() && SIMILAR@[t] == c;
                assert(t == 0 || t == 1 || t == 2 || t == 3 || t == 4 || t == 5);
                assert(q == 0 || q == 1 || q == 2 || q == 3 || q == 4 || q == 5 || q == 6 || q == 7
                    || q == 8 || q == 9 || q == 10 || q == 11 || q == 12 || q == 13 || q == 14 || q
                    == 15 || q == 16 || q == 17 || q == 18 || q == 19 || q == 20 || q == 21 || q
                    == 22 || q == 23 || q == 24 || q == 25 || q == 26);
            }
        }
    }
}

} // verus!
