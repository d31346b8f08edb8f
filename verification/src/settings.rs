//! Run configuration: the instrument universe, the cash budget and the
//! selection count, and the comma-separated list parser the loader uses.
//! Reading the environment itself is left to the surrounding process.
use vstd::prelude::*;

use vstd::string::StringExecFns;
use vstd::string::StrSliceExecFns;

verus! {

/// The application's own settings: how many instruments to select, the cash
/// budget (1e-6 currency units), and the instrument universe.
pub struct AppSettings {
    pub num_stocks: usize,
    pub initial_equity: u64,
    pub tickers: Vec<String>,
}

/// Everything the run needs from its configuration.
pub struct Settings {
    pub app: AppSettings,
}

/// Index of the first comma of `s`, or its length when `s` has none.
pub open spec fn first_comma(s: Seq<char>) -> nat
    decreases s.len(),
{
    if s.len() == 0 {
        0
    } else if s[0] == ',' {
        0
    } else {
        1 + first_comma(s.drop_first())
    }
}

/// The fields of `s` split on commas: the text before the first comma,
/// followed by the fields of what comes after it. A string without commas is
/// one field; a trailing comma yields a final empty field.
pub open spec fn split_commas(s: Seq<char>) -> Seq<Seq<char>>
    decreases s.len(),
{
    let i = first_comma(s);
    if i >= s.len() {
        seq![s]
    } else {
        seq![s.take(i as int)] + split_commas(s.skip(i as int + 1))
    }
}

/// The views of a vector of strings.
pub open spec fn str_views(v: Seq<String>) -> Seq<Seq<char>> {
    v.map_values(|t: String| t@)
}

/// A scan that saw no comma before `i`, and one at `i` unless `i` is the
/// length, has found the first comma.
proof fn lemma_first_comma_at(s: Seq<char>, i: int)
    requires
        0 <= i <= s.len(),
        forall|k: int| 0 <= k < i ==> s[k] != ',',
        i < s.len() ==> s[i] == ',',
    ensures
        first_comma(s) == i,
    decreases i,
{
    if i == 0 {
    } else {
        assert(s[0] != ',');
        lemma_first_comma_at(s.drop_first(), i - 1);
        assert(forall|k: int| 0 <= k < s.len() - 1 ==> s.drop_first()[k] == s[k + 1]);
    }
}

/// Split a comma-separated list into its fields, exactly as `split_commas`
/// describes.
pub fn vec_from_str(s: &str) -> (r: Vec<String>)
    ensures
        str_views(r@) == split_commas(s@),
{
    let ghost sv = s@;
    let n = s.unicode_len();
    let mut out: Vec<String> = Vec::new();
    let mut start: usize = 0;
    proof {
        assert(sv.skip(0) =~= sv);
        assert(str_views(out@) + split_commas(sv) =~~= split_commas(sv));
    }
    loop
        invariant_except_break
            sv == s@,
            n == sv.len(),
            start <= n,
            split_commas(sv) == str_views(out@) + split_commas(sv.skip(start as int)),
        ensures
            str_views(out@) == split_commas(sv),
        decreases n + 1 - start,
    {
        let mut i = start;
        while i < n
            invariant_except_break
                sv == s@,
                n == sv.len(),
                start <= i <= n,
                forall|k: int| start <= k < i ==> sv[k] != ',',
            ensures
                start <= i <= n,
                forall|k: int| start <= k < i ==> sv[k] != ',',
                i < n ==> sv[i as int] == ',',
            decreases n - i,
        {
            if s.get_char(i) == ',' {
                break;
            }
            i = i + 1;
        }
        let field = String::from_str(s.substring_char(start, i));
        proof {
            let rest = sv.skip(start as int);
            assert(forall|k: int| 0 <= k < rest.len() ==> rest[k] == sv[start + k]);
            lemma_first_comma_at(rest, i - start);
            assert(field@ =~= rest.take(i - start));
            if i < n {
                assert(rest.skip(i - start + 1) =~= sv.skip(i + 1));
                assert(split_commas(rest) == seq![field@] + split_commas(sv.skip(i + 1)));
                assert(str_views(out@.push(field)) + split_commas(sv.skip(i + 1)) =~~= str_views(
                    out@,
                ) + split_commas(rest));
            } else {
                assert(rest =~= rest.take(i - start));
                assert(split_commas(rest) == seq![field@]);
                assert(str_views(out@.push(field)) =~~= str_views(out@) + split_commas(rest));
            }
        }
        out.push(field);
        if i == n {
            break;
        }
        start = i + 1;
    }
    out
}

} // verus!
