//! Variable resolution: dotted-path lookup into a value tree and `{{path}}`
//! template substitution.

use vstd::prelude::*;

use crate::json::ser;
use crate::text::{chars_to_string, is_digit, string_chars, val_of};
use crate::value::{obj_lookup, Value, ValueSpec};

verus! {

broadcast use vstd::seq::axiom_seq_index_decreases, vstd::seq::axiom_seq_subrange_decreases, vstd::std_specs::vec::axiom_vec_decreases_to_view, vstd::std_specs::vec::axiom_spec_len;

/// The views of a list of path segments.
pub open spec fn segs_view(p: Seq<String>) -> Seq<Seq<char>> {
    Seq::new(p.len(), |i: int| p[i]@)
}

/// The array index denoted by a path segment: digits only, within `usize`.
pub open spec fn index_of_seg(seg: Seq<char>) -> Option<nat> {
    if seg.len() > 0 && (forall|j: int| 0 <= j < seg.len() ==> is_digit(#[trigger] seg[j]))
        && val_of(seg) <= usize::MAX as nat {
        Some(val_of(seg))
    } else {
        None
    }
}

/// Looks a dotted path up in a value tree, one segment at a time. A missing
/// key, a bad index, or a scalar in the way yields `Null`.
pub open spec fn path_get(v: ValueSpec, segs: Seq<Seq<char>>, from: int) -> ValueSpec
    decreases segs.len() - from,
{
    if from < 0 || from >= segs.len() {
        v
    } else {
        match v {
            ValueSpec::Obj(entries) => match obj_lookup(entries, segs[from]) {
                Some(v2) => path_get(v2, segs, from + 1),
                None => ValueSpec::Null,
            },
            ValueSpec::Arr(items) => match index_of_seg(segs[from]) {
                Some(i) => if i < items.len() {
                    path_get(items[i as int], segs, from + 1)
                } else {
                    ValueSpec::Null
                },
                None => ValueSpec::Null,
            },
            _ => ValueSpec::Null,
        }
    }
}

/// First position of `c` in `s` at or after `from`; the length when absent.
pub open spec fn find_char(s: Seq<char>, c: char, from: int) -> int
    decreases s.len() - from,
{
    if from < 0 || from >= s.len() {
        s.len() as int
    } else if s[from] == c {
        from
    } else {
        find_char(s, c, from + 1)
    }
}

/// `find_char` returns the position of the first occurrence.
proof fn lemma_find_char_eq(s: Seq<char>, c: char, from: int, k: int)
    requires
        0 <= from <= k <= s.len(),
        forall|j: int| from <= j < k ==> s[j] != c,
        k == s.len() || s[k] == c,
    ensures
        find_char(s, c, from) == if k == s.len() {
            s.len() as int
        } else {
            k
        },
    decreases k - from,
{
    if from < k {
        lemma_find_char_eq(s, c, from + 1, k);
    }
}

/// The segments of a dot-separated path, split at each dot.
pub open spec fn split_dots_spec(s: Seq<char>) -> Seq<Seq<char>>
    decreases s.len(),
{
    let i = find_char(s, '.', 0);
    if i < 0 || i >= s.len() {
        seq![s]
    } else {
        seq![s.subrange(0, i)] + split_dots_spec(s.subrange(i + 1, s.len() as int))
    }
}

/// Splits a path at each dot.
#[verifier::loop_isolation(false)]
pub fn split_dots(s: &String) -> (segs: Vec<String>)
    ensures
        segs_view(segs@) == split_dots_spec(s@),
{
    let chars = string_chars(s);
    let mut segs: Vec<String> = Vec::new();
    let mut start: usize = 0;
    let ghost whole = s@;
    proof {
        assert(whole.subrange(0, whole.len() as int) =~= whole);
        assert(segs_view(segs@) =~= Seq::<Seq<char>>::empty());
        assert(segs_view(segs@) + split_dots_spec(whole) =~= split_dots_spec(whole));
    }
    loop
        invariant
            start <= chars@.len(),
            chars@ == whole,
            split_dots_spec(whole) == segs_view(segs@) + split_dots_spec(
                whole.subrange(start as int, whole.len() as int),
            ),
        decreases chars@.len() - start + 1,
    {
        let ghost suffix = whole.subrange(start as int, whole.len() as int);
        // find the next dot
        let mut i: usize = start;
        while i < chars.len()
            invariant
                start <= i <= chars@.len(),
                forall|j: int| start <= j < i ==> whole[j] != '.',
            decreases chars@.len() - i,
        {
            if chars[i] == '.' {
                break ;
            }
            i = i + 1;
        }
        proof {
            assert forall|j: int| 0 <= j < i - start implies suffix[j] != '.' by {
                assert(suffix[j] == whole[start + j]);
            }
            if i < chars@.len() {
                assert(suffix[i - start] == whole[i as int]);
            }
            lemma_find_char_eq(suffix, '.', 0, i - start);
        }
        // copy the segment
        let mut seg: Vec<char> = Vec::new();
        let mut j: usize = start;
        while j < i
            invariant
                start <= j <= i <= chars@.len(),
                seg@ == whole.subrange(start as int, j as int),
            decreases i - j,
        {
            seg.push(chars[j]);
            proof {
                assert(seg@ =~= whole.subrange(start as int, j + 1 as int));
            }
            j = j + 1;
        }
        let segtext = chars_to_string(&seg);
        segs.push(segtext);
        if i >= chars.len() {
            proof {
                assert(find_char(suffix, '.', 0) == suffix.len());
                assert(split_dots_spec(suffix) == seq![suffix]);
                assert(seg@ =~= suffix);
                assert(segs_view(segs@) =~= segs_view(segs@.drop_last()) + seq![suffix]);
                assert(segs_view(segs@) + Seq::<Seq<char>>::empty() =~= segs_view(segs@));
                assert(split_dots_spec(whole) =~= segs_view(segs@.drop_last()) + split_dots_spec(
                    suffix,
                ));
                assert(split_dots_spec(whole) =~= segs_view(segs@));
            }
            break ;
        }
        proof {
            assert(find_char(suffix, '.', 0) == i - start);
            assert(split_dots_spec(suffix) == seq![suffix.subrange(0, i - start)]
                + split_dots_spec(suffix.subrange(i - start + 1, suffix.len() as int)));
            assert(seg@ =~= suffix.subrange(0, i - start));
            assert(suffix.subrange(i - start + 1, suffix.len() as int) =~= whole.subrange(
                i + 1 as int,
                whole.len() as int,
            ));
            assert(segs_view(segs@) =~= segs_view(segs@.drop_last()) + seq![seg@]);
            assert(segs_view(segs@) + split_dots_spec(
                whole.subrange(i + 1 as int, whole.len() as int),
            ) =~= segs_view(segs@.drop_last()) + split_dots_spec(suffix));
        }
        start = i + 1;
    }
    proof {
        assert(segs_view(segs@) =~= split_dots_spec(whole));
    }
    segs
}

/// Reads a path segment as an array index.
fn seg_index(seg: &String) -> (r: Option<usize>)
    ensures
        r matches Some(i) ==> index_of_seg(seg@) == Some(i as nat),
        r is None ==> index_of_seg(seg@) is None,
{
    let chars = string_chars(seg);
    match crate::text::parse_u64(chars.as_slice(), 0, chars.len()) {
        Some(m) => {
            proof {
                assert(chars@.subrange(0, chars@.len() as int) =~= seg@);
            }
            if m <= usize::MAX as u64 {
                Some(m as usize)
            } else {
                None
            }
        },
        None => {
            proof {
                assert(chars@.subrange(0, chars@.len() as int) =~= seg@);
                if index_of_seg(seg@) is Some {
                    assert(val_of(seg@) <= usize::MAX as nat);
                    assert(usize::MAX as nat <= u64::MAX as nat);
                }
            }
            None
        },
    }
}

/// Looks a dotted path up in a value tree from segment `from` on.
pub fn get_path(v: &Value, segs: &Vec<String>, from: usize) -> (r: Value)
    requires
        from <= segs@.len(),
    ensures
        r.view_spec() == path_get(v.view_spec(), segs_view(segs@), from as int),
    decreases segs@.len() - from,
{
    if from >= segs.len() {
        return v.deep_clone();
    }
    proof {
        assert(segs_view(segs@)[from as int] == segs@[from as int]@);
    }
    match v {
        Value::Obj(entries) => {
            match crate::value::obj_get(entries, &segs[from]) {
                Some(v2) => get_path(v2, segs, from + 1),
                None => Value::Null,
            }
        },
        Value::Arr(items) => {
            match seg_index(&segs[from]) {
                Some(i) => {
                    if i < items.len() {
                        proof {
                            crate::value::lemma_arr_view(items@);
                        }
                        get_path(&items[i], segs, from + 1)
                    } else {
                        proof {
                            crate::value::lemma_arr_view(items@);
                        }
                        Value::Null
                    }
                },
                None => Value::Null,
            }
        },
        _ => Value::Null,
    }
}

/// Whether `c` is an ASCII whitespace character.
pub open spec fn is_space(c: char) -> bool {
    c == ' ' || c == '\t' || c == '\n' || c == '\r'
}

/// The string without leading whitespace.
pub open spec fn trim_front(s: Seq<char>) -> Seq<char>
    decreases s.len(),
{
    if s.len() > 0 && is_space(s[0]) {
        trim_front(s.subrange(1, s.len() as int))
    } else {
        s
    }
}

/// The string without trailing whitespace.
pub open spec fn trim_back(s: Seq<char>) -> Seq<char>
    decreases s.len(),
{
    if s.len() > 0 && is_space(s.last()) {
        trim_back(s.drop_last())
    } else {
        s
    }
}

/// The string without surrounding whitespace.
pub open spec fn trim_spec(s: Seq<char>) -> Seq<char> {
    trim_back(trim_front(s))
}

/// `trim_front` keeps the suffix after the leading spaces.
proof fn lemma_trim_front(s: Seq<char>, a: int)
    requires
        0 <= a <= s.len(),
        forall|j: int| 0 <= j < a ==> is_space(#[trigger] s[j]),
        a == s.len() || !is_space(s[a]),
    ensures
        trim_front(s) == s.subrange(a, s.len() as int),
    decreases a,
{
    if a == 0 {
        if s.len() > 0 && is_space(s[0]) {
            assert(false);
        }
        assert(s.subrange(0, s.len() as int) =~= s);
    } else {
        let s1 = s.subrange(1, s.len() as int);
        assert(is_space(s[0]));
        assert forall|j: int| 0 <= j < a - 1 implies is_space(#[trigger] s1[j]) by {
            assert(s1[j] == s[j + 1]);
        }
        if a - 1 < s1.len() {
            assert(s1[a - 1] == s[a]);
        }
        lemma_trim_front(s1, a - 1);
        assert(s1.subrange(a - 1, s1.len() as int) =~= s.subrange(a, s.len() as int));
    }
}

/// `trim_back` keeps the prefix before the trailing spaces.
proof fn lemma_trim_back(s: Seq<char>, b: int)
    requires
        0 <= b <= s.len(),
        forall|j: int| b <= j < s.len() ==> is_space(#[trigger] s[j]),
        b == 0 || !is_space(s[b - 1]),
    ensures
        trim_back(s) == s.subrange(0, b),
    decreases s.len() - b,
{
    if b == s.len() {
        if s.len() > 0 && is_space(s.last()) {
            assert(!is_space(s[b - 1]));
            assert(false);
        }
        assert(s.subrange(0, b) =~= s);
    } else {
        assert(is_space(s.last()));
        let s1 = s.drop_last();
        assert(s1 =~= s.subrange(0, s.len() - 1));
        assert forall|j: int| b <= j < s1.len() implies is_space(#[trigger] s1[j]) by {
            assert(s1[j] == s[j]);
        }
        if b > 0 {
            assert(s1[b - 1] == s[b - 1]);
        }
        lemma_trim_back(s1, b);
        assert(s1.subrange(0, b) =~= s.subrange(0, b));
    }
}

/// Removes surrounding ASCII whitespace.
#[verifier::loop_isolation(false)]
pub fn trim_chars(s: &Vec<char>) -> (r: Vec<char>)
    ensures
        r@ == trim_spec(s@),
{
    let n = s.len();
    let mut a: usize = 0;
    while a < n && (s[a] == ' ' || s[a] == '\t' || s[a] == '\n' || s[a] == '\r')
        invariant
            a <= n,
            n == s@.len(),
            forall|j: int| 0 <= j < a ==> is_space(#[trigger] s@[j]),
        decreases n - a,
    {
        a = a + 1;
    }
    let mut b: usize = n;
    while b > a && (s[b - 1] == ' ' || s[b - 1] == '\t' || s[b - 1] == '\n' || s[b - 1] == '\r')
        invariant
            a <= b <= n,
            forall|j: int| b <= j < n ==> is_space(#[trigger] s@[j]),
        decreases b,
    {
        b = b - 1;
    }
    let mut out: Vec<char> = Vec::new();
    let mut j: usize = a;
    while j < b
        invariant
            a <= j <= b <= n,
            n == s@.len(),
            out@ == s@.subrange(a as int, j as int),
        decreases b - j,
    {
        out.push(s[j]);
        proof {
            assert(out@ =~= s@.subrange(a as int, j + 1 as int));
        }
        j = j + 1;
    }
    proof {
        lemma_trim_front(s@, a as int);
        let f = s@.subrange(a as int, n as int);
        assert forall|j2: int| b - a <= j2 < f.len() implies is_space(#[trigger] f[j2]) by {
            assert(f[j2] == s@[a + j2]);
        }
        if b > a {
            assert(f[b - a - 1] == s@[b - 1]);
        }
        lemma_trim_back(f, b - a);
        assert(f.subrange(0, b - a) =~= s@.subrange(a as int, b as int));
        assert(out@ =~= trim_spec(s@));
    }
    out
}

/// How a value reads when substituted into a string: strings stand for
/// themselves, null for nothing, and anything else for its canonical text.
pub open spec fn render(v: ValueSpec) -> Seq<char> {
    match v {
        ValueSpec::Str(s) => s,
        ValueSpec::Null => Seq::empty(),
        _ => ser(v),
    }
}

/// The template with every `{{path}}` pattern replaced by the rendered
/// value of the dotted path, read from `inputs`.
pub open spec fn subst(template: Seq<char>, inputs: ValueSpec) -> Seq<char>
    decreases template.len(),
{
    let open = find_open(template, 0);
    if open < 0 || open + 2 > template.len() {
        template
    } else {
        let close = find_close(template, open + 2);
        if close < open + 2 || close + 2 > template.len() {
            template
        } else {
            let path = trim_spec(template.subrange(open + 2, close));
            let replaced = render(path_get(inputs, split_dots_spec(path), 0));
            template.subrange(0, open) + replaced + subst(
                template.subrange(close + 2, template.len() as int),
                inputs,
            )
        }
    }
}

/// First position of `{{` at or after `from`; the length when absent.
pub open spec fn find_open(s: Seq<char>, from: int) -> int
    decreases s.len() - from,
{
    if from < 0 || from + 2 > s.len() {
        s.len() as int
    } else if s[from] == '{' && s[from + 1] == '{' {
        from
    } else {
        find_open(s, from + 1)
    }
}

/// First position of `}}` at or after `from`; the length when absent.
pub open spec fn find_close(s: Seq<char>, from: int) -> int
    decreases s.len() - from,
{
    if from < 0 || from + 2 > s.len() {
        s.len() as int
    } else if s[from] == '}' && s[from + 1] == '}' {
        from
    } else {
        find_close(s, from + 1)
    }
}

/// `find_open` returns the position of the first `{{`.
proof fn lemma_find_open_eq(s: Seq<char>, from: int, k: int)
    requires
        0 <= from <= k,
        k + 2 <= s.len() || k == s.len(),
        forall|j: int| from <= j < k && j + 2 <= s.len() ==> !(#[trigger] s[j] == '{' && s[j + 1] == '{'),
        k + 2 <= s.len() ==> s[k] == '{' && s[k + 1] == '{',
    ensures
        find_open(s, from) == if k + 2 <= s.len() {
            k
        } else {
            s.len() as int
        },
    decreases k - from,
{
    if from < k {
        if from + 2 > s.len() {
        } else {
            lemma_find_open_eq(s, from + 1, k);
        }
    }
}

/// `find_close` returns the position of the first `}}`.
proof fn lemma_find_close_eq(s: Seq<char>, from: int, k: int)
    requires
        0 <= from <= k,
        k + 2 <= s.len() || k == s.len(),
        forall|j: int| from <= j < k && j + 2 <= s.len() ==> !(#[trigger] s[j] == '}' && s[j + 1] == '}'),
        k + 2 <= s.len() ==> s[k] == '}' && s[k + 1] == '}',
    ensures
        find_close(s, from) == if k + 2 <= s.len() {
            k
        } else {
            s.len() as int
        },
    decreases k - from,
{
    if from < k {
        if from + 2 > s.len() {
        } else {
            lemma_find_close_eq(s, from + 1, k);
        }
    }
}

/// Renders one value for substitution.
pub fn render_value(v: &Value) -> (out: Vec<char>)
    ensures
        out@ == render(v.view_spec()),
{
    match v {
        Value::Str(s) => string_chars(s),
        Value::Null => Vec::new(),
        _ => crate::json::encode_value(v),
    }
}

/// Substitutes every `{{path}}` pattern in the template with the rendered
/// value of the dotted path, read from `inputs`.
#[verifier::loop_isolation(false)]
#[verifier::rlimit(100)]
#[verifier::spinoff_prover]
pub fn replace_variables(template: &String, inputs: &Value) -> (out: String)
    ensures
        out@ == subst(template@, inputs.view_spec()),
{
    let chars = string_chars(template);
    let n = chars.len();
    let ghost whole = template@;
    let ghost model = inputs.view_spec();
    let mut out: Vec<char> = Vec::new();
    let mut p: usize = 0;
    let mut done = false;
    proof {
        assert(whole.subrange(0, whole.len() as int) =~= whole);
        assert(out@ + subst(whole, model) =~= subst(whole, model));
    }
    while !done
        invariant
            p <= n,
            n == chars@.len(),
            chars@ == whole,
            whole == template@,
            model == inputs.view_spec(),
            done ==> out@ == subst(whole, model),
            !done ==> subst(whole, model) == out@ + subst(
                whole.subrange(p as int, n as int),
                model,
            ),
        decreases n - p, (if done { 0int } else { 1int }),
    {
        let ghost suffix = whole.subrange(p as int, n as int);
        // scan for `{{`
        let mut i: usize = p;
        while n - i >= 2 && !(chars[i] == '{' && chars[i + 1] == '{')
            invariant
                p <= i <= n,
                forall|j: int|
                    p <= j < i && j + 2 <= n ==> !(#[trigger] whole[j] == '{' && whole[j + 1] == '{'),
            decreases n - i,
        {
            i = i + 1;
        }
        proof {
            let k: int = if i + 2 <= n { i - p } else { suffix.len() as int };
            assert forall|j: int|
                0 <= j < k && j + 2 <= suffix.len() implies !(#[trigger] suffix[j] == '{'
                && suffix[j + 1] == '{') by {
                assert(suffix[j] == whole[p + j]);
                assert(suffix[j + 1] == whole[p + j + 1]);
            }
            if i + 2 <= n {
                assert(suffix[i - p] == whole[i as int]);
                assert(suffix[i - p + 1] == whole[i + 1]);
            }
            lemma_find_open_eq(suffix, 0, k);
        }
        if n - i <= 1 {
            // no pattern left: copy the remainder
            let ghost base = out@;
            let mut j: usize = p;
            while j < n
                invariant
                    p <= j <= n,
                    out@ == base + whole.subrange(p as int, j as int),
                decreases n - j,
            {
                out.push(chars[j]);
                proof {
                    assert(out@ =~= base + whole.subrange(p as int, j + 1 as int));
                }
                j = j + 1;
            }
            proof {
                assert(find_open(suffix, 0) == suffix.len());
                assert(subst(suffix, model) == suffix);
                assert(out@ =~= base + suffix);
                assert(out@ =~= subst(whole, model));
            }
            done = true;
            continue ;
        }
        // scan for `}}`
        let open = i;
        let mut k: usize = open + 2;
        while n - k >= 2 && !(chars[k] == '}' && chars[k + 1] == '}')
            invariant
                open + 2 <= k <= n,
                forall|j: int|
                    open + 2 <= j < k && j + 2 <= n ==> !(#[trigger] whole[j] == '}' && whole[j + 1] == '}'),
            decreases n - k,
        {
            k = k + 1;
        }
        proof {
            let kk: int = if k + 2 <= n { k - p } else { suffix.len() as int };
            assert forall|j: int|
                open + 2 - p <= j < kk && j + 2 <= suffix.len() implies !(#[trigger] suffix[j]
                == '}' && suffix[j + 1] == '}') by {
                assert(suffix[j] == whole[p + j]);
                assert(suffix[j + 1] == whole[p + j + 1]);
            }
            if k + 2 <= n {
                assert(suffix[k - p] == whole[k as int]);
                assert(suffix[k - p + 1] == whole[k + 1]);
            }
            lemma_find_close_eq(suffix, open + 2 - p, kk);
        }
        if n - k <= 1 {
            // unterminated pattern: copy the remainder
            let ghost base = out@;
            let mut j: usize = p;
            while j < n
                invariant
                    p <= j <= n,
                    out@ == base + whole.subrange(p as int, j as int),
                decreases n - j,
            {
                out.push(chars[j]);
                proof {
                    assert(out@ =~= base + whole.subrange(p as int, j + 1 as int));
                }
                j = j + 1;
            }
            proof {
                assert(find_close(suffix, open + 2 - p) == suffix.len());
                assert(subst(suffix, model) == suffix);
                assert(out@ =~= base + suffix);
                assert(out@ =~= subst(whole, model));
            }
            done = true;
            continue ;
        }
        let close = k;
        // copy the text before the pattern
        let ghost base = out@;
        let mut j: usize = p;
        while j < open
            invariant
                p <= j <= open,
                out@ == base + whole.subrange(p as int, j as int),
            decreases open - j,
        {
            out.push(chars[j]);
            proof {
                assert(out@ =~= base + whole.subrange(p as int, j + 1 as int));
            }
            j = j + 1;
        }
        // the path between the braces
        let mut raw: Vec<char> = Vec::new();
        let mut j2: usize = open + 2;
        while j2 < close
            invariant
                open + 2 <= j2 <= close,
                raw@ == whole.subrange(open + 2, j2 as int),
            decreases close - j2,
        {
            raw.push(chars[j2]);
            proof {
                assert(raw@ =~= whole.subrange(open + 2, j2 + 1 as int));
            }
            j2 = j2 + 1;
        }
        let trimmed = trim_chars(&raw);
        let pathtext = chars_to_string(&trimmed);
        let segs = split_dots(&pathtext);
        let found = get_path(inputs, &segs, 0);
        let rendered = render_value(&found);
        let ghost mid = out@;
        let mut j3: usize = 0;
        while j3 < rendered.len()
            invariant
                j3 <= rendered@.len(),
                out@ == mid + rendered@.subrange(0, j3 as int),
            decreases rendered@.len() - j3,
        {
            out.push(rendered[j3]);
            proof {
                assert(out@ =~= mid + rendered@.subrange(0, j3 + 1 as int));
            }
            j3 = j3 + 1;
        }
        proof {
            let open_r = i - p;
            let close_r = k - p;
            assert(find_open(suffix, 0) == open_r);
            assert(find_close(suffix, open_r + 2) == close_r);
            assert(suffix.subrange(open_r + 2, close_r) =~= whole.subrange(open + 2, close as int));
            assert(raw@ == suffix.subrange(open_r + 2, close_r));
            assert(rendered@ == render(path_get(model, split_dots_spec(trim_spec(raw@)), 0)));
            assert(subst(suffix, model) == suffix.subrange(0, open_r) + rendered@ + subst(
                suffix.subrange(close_r + 2, suffix.len() as int),
                model,
            ));
            assert(base + whole.subrange(p as int, open as int) =~= base + suffix.subrange(
                0,
                open_r,
            ));
            assert(rendered@.subrange(0, rendered@.len() as int) =~= rendered@);
            assert(out@ =~= base + suffix.subrange(0, open_r) + rendered@);
            assert(suffix.subrange(close_r + 2, suffix.len() as int) =~= whole.subrange(
                close + 2,
                n as int,
            ));
            assert(subst(whole, model) =~= out@ + subst(
                whole.subrange(close + 2, n as int),
                model,
            ));
        }
        p = close + 2;
    }
    proof {
        assert(out@ == subst(whole, model));
    }
    chars_to_string(&out)
}

} // verus!
