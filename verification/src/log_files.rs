//! Naming of the log files: each log file is called `<generation>.log`, and
//! the store finds its generations by reading the names of the files in its
//! directory.
use vstd::prelude::*;
use vstd::string::*;

verus! {

broadcast use vstd::seq_lib::group_to_multiset_ensures;

/// The suffix of every log file's name.
pub open spec fn log_suffix() -> Seq<char> {
    seq!['.', 'l', 'o', 'g']
}

/// `s` ends with `.log`.
pub open spec fn ends_with_log(s: Seq<char>) -> bool {
    s.len() >= 4 && s.subrange(s.len() - 4, s.len() as int) == log_suffix()
}

/// The file name's extension (the text after its last dot, where that dot is
/// not the name's first character) is `log`.
pub open spec fn has_log_extension(name: Seq<char>) -> bool {
    name.len() >= 5 && ends_with_log(name)
}

/// `s` with every trailing `.log` taken off, one after the other.
pub open spec fn trim_log_suffixes(s: Seq<char>) -> Seq<char>
    decreases s.len(),
{
    if ends_with_log(s) {
        trim_log_suffixes(s.subrange(0, s.len() - 4))
    } else {
        s
    }
}

/// `c` is one of the ASCII digits `0` to `9`.
pub open spec fn is_digit(c: char) -> bool {
    0 <= digit_value(c) <= 9
}

/// The value of the ASCII digit `c`.
pub open spec fn digit_value(c: char) -> int {
    match c {
        '0' => 0,
        '1' => 1,
        '2' => 2,
        '3' => 3,
        '4' => 4,
        '5' => 5,
        '6' => 6,
        '7' => 7,
        '8' => 8,
        '9' => 9,
        _ => -1,
    }
}

/// Every character of `s` is an ASCII digit.
pub open spec fn all_digits(s: Seq<char>) -> bool {
    forall|i: int| 0 <= i < s.len() ==> is_digit(#[trigger] s[i])
}

/// The number that the digits `s` write in base ten.
pub open spec fn decimal_value(s: Seq<char>) -> int
    decreases s.len(),
{
    if s.len() == 0 {
        0
    } else {
        decimal_value(s.drop_last()) * 10 + digit_value(s.last())
    }
}

/// What parsing `s` as an unsigned 64-bit integer gives: an optional `+`,
/// then at least one digit, and a value that fits.
pub open spec fn parse_u64(s: Seq<char>) -> Option<u64> {
    let digits = if s.len() > 0 && s[0] == '+' {
        s.skip(1)
    } else {
        s
    };
    if digits.len() > 0 && all_digits(digits) && decimal_value(digits) <= u64::MAX {
        Some(decimal_value(digits) as u64)
    } else {
        None
    }
}

/// The generation that a file called `name` holds, if it is a log file.
pub open spec fn generation_of(name: Seq<char>) -> Option<u64> {
    if has_log_extension(name) {
        parse_u64(trim_log_suffixes(name))
    } else {
        None
    }
}

/// The generations of the log files among `names`, in the order of the names.
pub open spec fn generations_of(names: Seq<Seq<char>>) -> Seq<u64>
    decreases names.len(),
{
    if names.len() == 0 {
        Seq::empty()
    } else {
        let rest = generations_of(names.drop_last());
        match generation_of(names.last()) {
            Some(g) => rest.push(g),
            None => rest,
        }
    }
}

/// `s` is in ascending order.
pub open spec fn is_sorted(s: Seq<u64>) -> bool {
    forall|a: int, b: int| 0 <= a <= b < s.len() ==> s[a] <= s[b]
}

/// The character of the digit `d`.
pub open spec fn digit_char(d: int) -> char {
    if d == 0 {
        '0'
    } else if d == 1 {
        '1'
    } else if d == 2 {
        '2'
    } else if d == 3 {
        '3'
    } else if d == 4 {
        '4'
    } else if d == 5 {
        '5'
    } else if d == 6 {
        '6'
    } else if d == 7 {
        '7'
    } else if d == 8 {
        '8'
    } else {
        '9'
    }
}

/// The decimal digits of `n`, without leading zeros.
pub open spec fn decimal_string(n: nat) -> Seq<char>
    decreases n,
{
    if n < 10 {
        seq![digit_char(n as int)]
    } else {
        decimal_string(n / 10).push(digit_char((n % 10) as int))
    }
}

/// The name of the log file of generation `generation`.
pub open spec fn log_file_name_spec(generation: u64) -> Seq<char> {
    decimal_string(generation as nat) + log_suffix()
}

fn chars_of(s: &str) -> (cs: Vec<char>)
    ensures
        cs@ == s@,
{
    let n = s.unicode_len();
    let mut cs: Vec<char> = Vec::new();
    let mut i: usize = 0;
    while i < n
        invariant
            n == s@.len(),
            i <= n,
            cs@ == s@.subrange(0, i as int),
        decreases n - i,
    {
        let c = s.get_char(i);
        cs.push(c);
        i = i + 1;
        assert(cs@ =~= s@.subrange(0, i as int));
    }
    assert(cs@ =~= s@);
    cs
}

fn ends_with_log_at(cs: &Vec<char>, end: usize) -> (b: bool)
    requires
        end <= cs.len(),
    ensures
        b == ends_with_log(cs@.subrange(0, end as int)),
{
    let ghost s = cs@.subrange(0, end as int);
    if end < 4 {
        return false;
    }
    let b = cs[end - 4] == '.' && cs[end - 3] == 'l' && cs[end - 2] == 'o' && cs[end - 1] == 'g';
    proof {
        let tail = s.subrange(s.len() - 4, s.len() as int);
        if b {
            assert(tail =~= log_suffix());
        } else {
            if tail == log_suffix() {
                assert(tail[0] == '.' && tail[1] == 'l' && tail[2] == 'o' && tail[3] == 'g');
                assert(false);
            }
        }
    }
    b
}

fn trim_log_end(cs: &Vec<char>) -> (end: usize)
    ensures
        end <= cs.len(),
        cs@.subrange(0, end as int) == trim_log_suffixes(cs@),
{
    let mut end = cs.len();
    assert(cs@.subrange(0, end as int) =~= cs@);
    while ends_with_log_at(cs, end)
        invariant
            end <= cs.len(),
            trim_log_suffixes(cs@.subrange(0, end as int)) == trim_log_suffixes(cs@),
        decreases end,
    {
        assert(cs@.subrange(0, end as int).subrange(0, end - 4) =~= cs@.subrange(0, end - 4));
        end = end - 4;
    }
    end
}

proof fn lemma_decimal_value_prefix(s: Seq<char>, k: int)
    requires
        all_digits(s),
        0 <= k <= s.len(),
    ensures
        decimal_value(s) >= decimal_value(s.subrange(0, k)),
        decimal_value(s) >= 0,
    decreases s.len(),
{
    if s.len() == 0 {
        assert(s.subrange(0, k) =~= s);
    } else if k == s.len() {
        assert(s.subrange(0, k) =~= s);
        lemma_decimal_value_prefix(s.drop_last(), k - 1);
    } else {
        assert(s.drop_last().subrange(0, k) =~= s.subrange(0, k));
        lemma_decimal_value_prefix(s.drop_last(), k);
    }
}

fn digit_of(c: char) -> (r: Option<u64>)
    ensures
        match r {
            Some(d) => is_digit(c) && d == digit_value(c),
            None => !is_digit(c),
        },
{
    match c {
        '0' => Some(0),
        '1' => Some(1),
        '2' => Some(2),
        '3' => Some(3),
        '4' => Some(4),
        '5' => Some(5),
        '6' => Some(6),
        '7' => Some(7),
        '8' => Some(8),
        '9' => Some(9),
        _ => None,
    }
}

fn parse_decimal(cs: &Vec<char>, end: usize) -> (r: Option<u64>)
    requires
        end <= cs.len(),
    ensures
        r == parse_u64(cs@.subrange(0, end as int)),
{
    let ghost s = cs@.subrange(0, end as int);
    let mut start: usize = 0;
    if end > 0 && cs[0] == '+' {
        start = 1;
    }
    let ghost digits = cs@.subrange(start as int, end as int);
    proof {
        if end > 0 && s[0] == '+' {
            assert(digits =~= s.skip(1));
        } else {
            assert(digits =~= s);
        }
    }
    if start == end {
        return None;
    }
    let mut acc: u64 = 0;
    let mut i: usize = start;
    assert(cs@.subrange(start as int, i as int) =~= Seq::<char>::empty());
    while i < end
        invariant
            start <= i <= end <= cs.len(),
            digits == cs@.subrange(start as int, end as int),
            s == cs@.subrange(0, end as int),
            digits == (if s.len() > 0 && s[0] == '+' { s.skip(1) } else { s }),
            acc as int == decimal_value(cs@.subrange(start as int, i as int)),
            all_digits(cs@.subrange(start as int, i as int)),
        decreases end - i,
    {
        let c = cs[i];
        let d = match digit_of(c) {
            Some(d) => d,
            None => {
                proof {
                    assert(digits[i - start] == c);
                }
                return None;
            },
        };
        let ghost next = cs@.subrange(start as int, i + 1);
        assert(next.drop_last() =~= cs@.subrange(start as int, i as int));
        assert(next.last() == c);
        if acc > (u64::MAX - d) / 10 {
            proof {
                assert(acc * 10 + d > u64::MAX) by (nonlinear_arith)
                    requires
                        acc > (u64::MAX - d) / 10,
                        d <= 9,
                ;
                if all_digits(digits) {
                    assert(digits.subrange(0, i + 1 - start) =~= next);
                    lemma_decimal_value_prefix(digits, i + 1 - start);
                }
            }
            return None;
        }
        assert(acc * 10 + d <= u64::MAX) by (nonlinear_arith)
            requires
                acc <= (u64::MAX - d) / 10,
                d <= 9,
        ;
        acc = acc * 10 + d;
        i = i + 1;
        assert(all_digits(next)) by {
            assert forall|j: int| 0 <= j < next.len() implies is_digit(#[trigger] next[j]) by {
                if j < next.len() - 1 {
                    assert(next[j] == cs@.subrange(start as int, i - 1)[j]);
                }
            }
        }
    }
    Some(acc)
}

/// The generation of the log file called `name`, or `None` where `name` is
/// not the name of a log file.
pub fn log_file_generation(name: &str) -> (g: Option<u64>)
    ensures
        g == generation_of(name@),
{
    let cs = chars_of(name);
    let n = cs.len();
    assert(cs@.subrange(0, n as int) =~= cs@);
    if n < 5 || !ends_with_log_at(&cs, n) {
        return None;
    }
    let end = trim_log_end(&cs);
    parse_decimal(&cs, end)
}

fn digit_str(d: u64) -> (s: &'static str)
    requires
        d <= 9,
    ensures
        s@ == seq![digit_char(d as int)],
{
    match d {
        0 => {
            proof {
                reveal_strlit("0");
            }
            "0"
        },
        1 => {
            proof {
                reveal_strlit("1");
            }
            "1"
        },
        2 => {
            proof {
                reveal_strlit("2");
            }
            "2"
        },
        3 => {
            proof {
                reveal_strlit("3");
            }
            "3"
        },
        4 => {
            proof {
                reveal_strlit("4");
            }
            "4"
        },
        5 => {
            proof {
                reveal_strlit("5");
            }
            "5"
        },
        6 => {
            proof {
                reveal_strlit("6");
            }
            "6"
        },
        7 => {
            proof {
                reveal_strlit("7");
            }
            "7"
        },
        8 => {
            proof {
                reveal_strlit("8");
            }
            "8"
        },
        _ => {
            proof {
                reveal_strlit("9");
            }
            "9"
        },
    }
}

fn push_decimal(s: &mut String, n: u64)
    ensures
        final(s)@ == old(s)@ + decimal_string(n as nat),
    decreases n,
{
    if n >= 10 {
        push_decimal(s, n / 10);
    }
    s.append(digit_str(n % 10));
    proof {
        if n < 10 {
            assert(final(s)@ =~= old(s)@ + decimal_string(n as nat));
        } else {
            assert(decimal_string(n as nat) == decimal_string((n / 10) as nat).push(
                digit_char((n % 10) as int),
            ));
            assert(final(s)@ =~= old(s)@ + decimal_string(n as nat));
        }
    }
}

/// The name of the log file of generation `generation`: its decimal digits,
/// then `.log`.
pub fn log_file_name(generation: u64) -> (name: String)
    ensures
        name@ == log_file_name_spec(generation),
{
    let mut name = String::new();
    push_decimal(&mut name, generation);
    proof {
        reveal_strlit(".log");
    }
    name.append(".log");
    assert(name@ =~= log_file_name_spec(generation));
    name
}

fn sort_generations(v: &Vec<u64>) -> (out: Vec<u64>)
    ensures
        is_sorted(out@),
        out@.to_multiset() == v@.to_multiset(),
{
    let mut out: Vec<u64> = Vec::new();
    let mut i: usize = 0;
    assert(v@.subrange(0, 0) =~= Seq::<u64>::empty());
    while i < v.len()
        invariant
            i <= v.len(),
            is_sorted(out@),
            out@.to_multiset() == v@.subrange(0, i as int).to_multiset(),
        decreases v.len() - i,
    {
        let x = v[i];
        let mut j: usize = 0;
        while j < out.len() && out[j] <= x
            invariant
                j <= out.len(),
                is_sorted(out@),
                forall|k: int| 0 <= k < j ==> out@[k] <= x,
            decreases out.len() - j,
        {
            j = j + 1;
        }
        let ghost before = out@;
        out.insert(j, x);
        proof {
            assert forall|a: int, b: int| 0 <= a <= b < out@.len() implies out@[a] <= out@[b] by {
                if b < j {
                } else if b == j {
                    if a < j {
                        assert(before[a] <= x);
                    }
                } else if a < j {
                    assert(before[a] <= x);
                    assert(before[j as int] > x);
                    assert(before[j as int] <= before[b - 1]);
                } else if a == j {
                    assert(before[j as int] > x);
                    assert(before[j as int] <= before[b - 1]);
                } else {
                    assert(before[a - 1] <= before[b - 1]);
                }
            }
            vstd::seq_lib::to_multiset_insert(before, j as int, x);
            assert(v@.subrange(0, i + 1) =~= v@.subrange(0, i as int).push(x));
        }
        i = i + 1;
    }
    assert(v@.subrange(0, v.len() as int) =~= v@);
    out
}

/// The generations of the log files among the file names `names`, in
/// ascending order.
pub fn list_log_generations(names: &Vec<String>) -> (gens: Vec<u64>)
    ensures
        is_sorted(gens@),
        gens@.to_multiset() == generations_of(names@.map_values(|n: String| n@)).to_multiset(),
        gens@.to_multiset() == names@.map_values(|n: String| n@).filter_map(
            |n: Seq<char>| generation_of(n),
        ).to_multiset(),
{
    proof {
        law_generations_of_names(names@.map_values(|n: String| n@));
    }
    let ghost views = names@.map_values(|n: String| n@);
    let mut found: Vec<u64> = Vec::new();
    let mut i: usize = 0;
    assert(views.subrange(0, 0) =~= Seq::<Seq<char>>::empty());
    while i < names.len()
        invariant
            i <= names.len(),
            views == names@.map_values(|n: String| n@),
            found@ == generations_of(views.subrange(0, i as int)),
        decreases names.len() - i,
    {
        let g = log_file_generation(names[i].as_str());
        assert(views.subrange(0, i + 1).drop_last() =~= views.subrange(0, i as int));
        assert(views.subrange(0, i + 1).last() == names@[i as int]@);
        match g {
            Some(g) => found.push(g),
            None => {},
        }
        i = i + 1;
    }
    assert(views.subrange(0, names.len() as int) =~= views);
    sort_generations(&found)
}

proof fn lemma_decimal_string(n: nat)
    ensures
        decimal_string(n).len() >= 1,
        all_digits(decimal_string(n)),
        decimal_value(decimal_string(n)) == n,
        decimal_string(n)[0] == '0' ==> n == 0,
    decreases n,
{
    let ds = decimal_string(n);
    if n < 10 {
        assert(ds.drop_last() =~= Seq::<char>::empty());
        assert(digit_value(ds.last()) == n);
        assert(decimal_value(ds) == decimal_value(ds.drop_last()) * 10 + digit_value(ds.last()));
    } else {
        lemma_decimal_string(n / 10);
        assert(ds.drop_last() =~= decimal_string(n / 10));
        assert(ds[0] == decimal_string(n / 10)[0]);
        assert(n == (n / 10) * 10 + n % 10) by (nonlinear_arith);
        assert(0 <= n % 10 <= 9);
        assert(digit_value(ds.last()) == n % 10);
        assert(decimal_value(ds) == decimal_value(ds.drop_last()) * 10 + digit_value(ds.last()));
        assert forall|i: int| 0 <= i < ds.len() implies is_digit(#[trigger] ds[i]) by {
            if i < ds.len() - 1 {
                assert(ds[i] == decimal_string(n / 10)[i]);
            }
        }
    }
}

/// The name of the log file of generation `generation` is the decimal
/// digits of `generation`, with no leading zero (but for `0` itself),
/// followed by `.log`.
pub proof fn law_log_file_name_canonical(generation: u64)
    ensures
        ({
            let name = log_file_name_spec(generation);
            let digits = name.subrange(0, name.len() - 4);
            &&& name.len() >= 5
            &&& name.subrange(name.len() - 4, name.len() as int) == log_suffix()
            &&& all_digits(digits)
            &&& decimal_value(digits) == generation
            &&& (digits[0] == '0' ==> generation == 0)
            &&& (digits.len() == 1 <==> generation < 10)
        }),
{
    let ds = decimal_string(generation as nat);
    let name = log_file_name_spec(generation);
    lemma_decimal_string(generation as nat);
    assert(name.subrange(0, name.len() - 4) =~= ds);
    assert(name.subrange(name.len() - 4, name.len() as int) =~= log_suffix());
    if generation >= 10 {
        assert(ds == decimal_string((generation / 10) as nat).push(
            digit_char((generation % 10) as int),
        ));
        lemma_decimal_string((generation / 10) as nat);
    }
}

/// The generations listed from `names` are those of the names that are log
/// files' names, in the order of the names.
pub proof fn law_generations_of_names(names: Seq<Seq<char>>)
    ensures
        generations_of(names) == names.filter_map(|n: Seq<char>| generation_of(n)),
    decreases names.len(),
{
    if names.len() > 0 {
        law_generations_of_names(names.drop_last());
        let f = |n: Seq<char>| generation_of(n);
        match generation_of(names.last()) {
            Some(g) => {
                assert(generations_of(names.drop_last()).push(g) =~= names.drop_last().filter_map(
                    f,
                ) + seq![g]);
            },
            None => {},
        }
    }
}

/// `stem` is an optional `+` and then the decimal digits of `g`.
pub open spec fn is_decimal_stem(stem: Seq<char>, g: u64) -> bool {
    let digits = if stem.len() > 0 && stem[0] == '+' {
        stem.skip(1)
    } else {
        stem
    };
    &&& digits.len() > 0
    &&& all_digits(digits)
    &&& decimal_value(digits) == g
}

/// The characters of `name` from `n` on are one or more copies of `.log`.
pub open spec fn log_suffixes_from(name: Seq<char>, n: int) -> bool {
    &&& 0 <= n
    &&& n + 4 <= name.len()
    &&& (name.len() - n) % 4 == 0
    &&& forall|i: int| n <= i < name.len() ==> name[i] == #[trigger] log_suffix()[(i - n) % 4]
}

proof fn lemma_trim_log_suffixes(s: Seq<char>)
    ensures
        ({
            let t = trim_log_suffixes(s);
            &&& t.len() <= s.len()
            &&& (s.len() - t.len()) % 4 == 0
            &&& t =~= s.subrange(0, t.len() as int)
            &&& forall|i: int|
                t.len() <= i < s.len() ==> s[i] == #[trigger] log_suffix()[(i - t.len()) % 4]
        }),
    decreases s.len(),
{
    if ends_with_log(s) {
        let s1 = s.subrange(0, s.len() - 4);
        lemma_trim_log_suffixes(s1);
        let t = trim_log_suffixes(s1);
        assert(trim_log_suffixes(s) == t);
        assert(t =~= s.subrange(0, t.len() as int)) by {
            assert forall|i: int| 0 <= i < t.len() implies t[i] == s[i] by {
                assert(t[i] == s1[i]);
            }
        }
        assert forall|i: int| t.len() <= i < s.len() implies s[i] == #[trigger] log_suffix()[(i
            - t.len()) % 4] by {
            if i < s.len() - 4 {
                assert(s[i] == s1[i]);
            } else {
                let tail = s.subrange(s.len() - 4, s.len() as int);
                assert(s[i] == tail[i - (s.len() - 4)]);
                assert((i - t.len()) % 4 == i - (s.len() - 4));
            }
        }
    }
}

/// A name is taken for a log file only where it is an optional `+`, the
/// decimal digits of the generation, and one or more copies of `.log`.
pub proof fn law_generation_of_sound(name: Seq<char>, g: u64)
    requires
        generation_of(name) == Some(g),
    ensures
        exists|n: int|
            log_suffixes_from(name, n) && #[trigger] is_decimal_stem(name.subrange(0, n), g),
{
    lemma_trim_log_suffixes(name);
    let t = trim_log_suffixes(name);
    let n = t.len() as int;
    if n + 4 > name.len() {
        assert(n == name.len());
        assert(t =~= name);
        assert(ends_with_log(name));
        assert(false);
    }
    assert(name.subrange(0, n) == t);
    assert(log_suffixes_from(name, n));
    let digits = if t.len() > 0 && t[0] == '+' {
        t.skip(1)
    } else {
        t
    };
    assert(all_digits(digits));
    lemma_decimal_value_prefix(digits, 0);
    assert(is_decimal_stem(name.subrange(0, n), g));
}

proof fn lemma_trim_to_stem(name: Seq<char>, n: int)
    requires
        1 <= n <= name.len(),
        (name.len() - n) % 4 == 0,
        forall|i: int| n <= i < name.len() ==> name[i] == #[trigger] log_suffix()[(i - n) % 4],
        is_digit(name[n - 1]),
    ensures
        trim_log_suffixes(name) == name.subrange(0, n),
    decreases name.len() - n,
{
    if name.len() == n {
        if ends_with_log(name) {
            let tail = name.subrange(name.len() - 4, name.len() as int);
            assert(tail[3] == name[n - 1]);
        }
        assert(name.subrange(0, n) =~= name);
    } else {
        let s1 = name.subrange(0, name.len() - 4);
        assert(name.subrange(name.len() - 4, name.len() as int) =~= log_suffix()) by {
            assert forall|j: int| 0 <= j < 4 implies name.subrange(
                name.len() - 4,
                name.len() as int,
            )[j] == log_suffix()[j] by {
                let i = name.len() - 4 + j;
                assert(name[i] == log_suffix()[(i - n) % 4]);
            }
        }
        assert forall|i: int| n <= i < s1.len() implies s1[i] == #[trigger] log_suffix()[(i - n)
            % 4] by {
            assert(s1[i] == name[i]);
        }
        lemma_trim_to_stem(s1, n);
        assert(s1.subrange(0, n) =~= name.subrange(0, n));
    }
}

/// A name made of an optional `+`, the decimal digits of a number that fits
/// a `u64` (with leading zeros or not) and one or more copies of `.log` is
/// the log file of that number.
pub proof fn law_generation_of_complete(name: Seq<char>, n: int, g: u64)
    requires
        log_suffixes_from(name, n),
        is_decimal_stem(name.subrange(0, n), g),
    ensures
        generation_of(name) == Some(g),
{
    let stem = name.subrange(0, n);
    let digits = if stem.len() > 0 && stem[0] == '+' {
        stem.skip(1)
    } else {
        stem
    };
    assert(digits.last() == name[n - 1]);
    assert(is_digit(digits[digits.len() - 1]));
    lemma_trim_to_stem(name, n);
    assert(name.subrange(name.len() - 4, name.len() as int) =~= log_suffix()) by {
        assert forall|j: int| 0 <= j < 4 implies name.subrange(name.len() - 4, name.len() as int)[j]
            == log_suffix()[j] by {
            let i = name.len() - 4 + j;
            assert(name[i] == log_suffix()[(i - n) % 4]);
        }
    }
    assert(has_log_extension(name));
}

/// A log file's name gives back the generation that it was made for.
pub proof fn law_log_file_name_round_trip(generation: u64)
    ensures
        generation_of(log_file_name_spec(generation)) == Some(generation),
{
    let ds = decimal_string(generation as nat);
    let name = log_file_name_spec(generation);
    lemma_decimal_string(generation as nat);
    assert(name.subrange(name.len() - 4, name.len() as int) =~= log_suffix());
    assert(name.subrange(0, name.len() - 4) =~= ds);
    if ends_with_log(ds) {
        let tail = ds.subrange(ds.len() - 4, ds.len() as int);
        assert(tail[3] == ds[ds.len() - 1]);
        assert(is_digit(ds[ds.len() - 1]));
        assert(false);
    }
    assert(trim_log_suffixes(ds) == ds);
    assert(trim_log_suffixes(name) == ds);
    assert(is_digit(ds[0]));
}

} // verus!
