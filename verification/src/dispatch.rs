//! Per-node behaviour, keyed by a node's type tag: pure nodes are computed
//! here; HTTP and model calls are prepared here and performed by the caller.

use vstd::prelude::*;

use crate::resolve::{path_get, replace_variables, split_dots, split_dots_spec, subst};
use crate::value::{obj_get, obj_lookup, obj_view, Entry, Value, ValueSpec};

verus! {

broadcast use vstd::seq::axiom_seq_index_decreases, vstd::seq::axiom_seq_subrange_decreases, vstd::std_specs::vec::axiom_vec_decreases_to_view, vstd::std_specs::vec::axiom_spec_len, vstd::string::group_string_axioms;

/// A string-valued configuration field, when present.
pub open spec fn conf_str(config: ValueSpec, key: Seq<char>) -> Option<Seq<char>> {
    match config {
        ValueSpec::Obj(entries) => match obj_lookup(entries, key) {
            Some(ValueSpec::Str(s)) => Some(s),
            _ => None,
        },
        _ => None,
    }
}

/// A configuration field of any shape, when present.
pub open spec fn conf_val(config: ValueSpec, key: Seq<char>) -> Option<ValueSpec> {
    match config {
        ValueSpec::Obj(entries) => obj_lookup(entries, key),
        _ => None,
    }
}

/// Reads a string-valued configuration field.
pub fn get_conf_str(config: &Value, key: &String) -> (r: Option<String>)
    ensures
        match r {
            Some(s) => conf_str(config.view_spec(), key@) == Some(s@),
            None => conf_str(config.view_spec(), key@) is None,
        },
{
    match config {
        Value::Obj(entries) => match obj_get(entries, key) {
            Some(Value::Str(s)) => Some(s.clone()),
            _ => None,
        },
        _ => None,
    }
}

/// Reads a configuration field of any shape.
pub fn get_conf_val(config: &Value, key: &String) -> (r: Option<Value>)
    ensures
        match r {
            Some(v) => conf_val(config.view_spec(), key@) == Some(v.view_spec()),
            None => conf_val(config.view_spec(), key@) is None,
        },
{
    match config {
        Value::Obj(entries) => match obj_get(entries, key) {
            Some(v) => Some(v.deep_clone()),
            None => None,
        },
        _ => None,
    }
}

/// Whether `needle` occurs as a contiguous part of `hay`.
pub open spec fn contains_sub(hay: Seq<char>, needle: Seq<char>) -> bool {
    exists|i: int|
        0 <= i <= hay.len() - needle.len() && #[trigger] hay.subrange(i, i + needle.len() as int)
            == needle
}

/// Substring search.
#[verifier::loop_isolation(false)]
pub fn find_sub(hay: &Vec<char>, needle: &Vec<char>) -> (r: bool)
    ensures
        r == contains_sub(hay@, needle@),
{
    let hn = hay.len();
    let nn = needle.len();
    if nn > hn {
        proof {
            assert(!contains_sub(hay@, needle@));
        }
        return false;
    }
    if nn == 0 {
        proof {
            assert(hay@.subrange(0, 0 + needle@.len() as int) =~= needle@);
        }
        return true;
    }
    let mut i: usize = 0;
    while i <= hn - nn
        invariant
            nn <= hn,
            i <= hn - nn + 1,
            hn == hay@.len(),
            nn == needle@.len(),
            forall|i2: int|
                0 <= i2 < i ==> #[trigger] hay@.subrange(i2, i2 + needle@.len() as int)
                    != needle@,
        decreases hn - nn - i + 1,
    {
        let mut j: usize = 0;
        let mut matched = true;
        while j < nn
            invariant
                j <= nn,
                i + nn <= hn,
                matched ==> forall|j2: int| 0 <= j2 < j ==> hay@[i + j2] == needle@[j2],
                !matched ==> hay@.subrange(i as int, i + nn as int) != needle@,
            decreases nn - j,
        {
            if hay[i + j] != needle[j] {
                proof {
                    assert(hay@.subrange(i as int, i + nn as int)[j as int] == hay@[i + j]);
                }
                matched = false;
                break ;
            }
            j = j + 1;
        }
        if matched {
            proof {
                assert(hay@.subrange(i as int, i + nn as int) =~= needle@);
            }
            return true;
        }
        i = i + 1;
    }
    proof {
        if contains_sub(hay@, needle@) {
            let w = choose|w: int|
                0 <= w <= hay@.len() - needle@.len() && #[trigger] hay@.subrange(
                    w,
                    w + needle@.len() as int,
                ) == needle@;
            assert(hay@.subrange(w, w + needle@.len() as int) != needle@);
        }
    }
    false
}

/// Whether `s` begins with `prefix`.
pub open spec fn starts_with(s: Seq<char>, prefix: Seq<char>) -> bool {
    prefix.len() <= s.len() && s.subrange(0, prefix.len() as int) == prefix
}

/// Prefix test.
#[verifier::loop_isolation(false)]
pub fn has_prefix(s: &Vec<char>, prefix: &Vec<char>) -> (r: bool)
    ensures
        r == starts_with(s@, prefix@),
{
    let n = prefix.len();
    if n > s.len() {
        return false;
    }
    let mut j: usize = 0;
    while j < n
        invariant
            j <= n,
            n <= s@.len(),
            n == prefix@.len(),
            forall|j2: int| 0 <= j2 < j ==> s@[j2] == prefix@[j2],
        decreases n - j,
    {
        if s[j] != prefix[j] {
            proof {
                assert(s@.subrange(0, n as int)[j as int] == s@[j as int]);
            }
            return false;
        }
        j = j + 1;
    }
    proof {
        assert(s@.subrange(0, n as int) =~= prefix@);
    }
    true
}

/// The template node's output: the substituted template under `text`.
pub open spec fn template_output(config: ValueSpec, inputs: ValueSpec) -> ValueSpec {
    let template = match conf_str(config, "template"@) {
        Some(t) => t,
        None => Seq::empty(),
    };
    ValueSpec::Obj(seq![("text"@, ValueSpec::Str(subst(template, inputs)))])
}

/// Runs a template node: substitutes variables into the `template` field.
pub fn execute_template_node(config: &Value, inputs: &Value) -> (out: Value)
    ensures
        out.view_spec() == template_output(config.view_spec(), inputs.view_spec()),
{
    let key = String::from_str("template");
    let template = match get_conf_str(config, &key) {
        Some(t) => t,
        None => String::new(),
    };
    let text = replace_variables(&template, inputs);
    let tkey = String::from_str("text");
    let mut entries: Vec<Entry> = Vec::new();
    entries.push(Entry { key: tkey, value: Value::Str(text) });
    let out = Value::Obj(entries);
    proof {
        crate::value::lemma_obj_view(entries@);
        assert(obj_view(entries@) =~= seq![
            ("text"@, ValueSpec::Str(subst(match conf_str(config.view_spec(), "template"@) {
                Some(t) => t,
                None => Seq::empty(),
            }, inputs.view_spec()))),
        ]);
    }
    out
}

/// The integer a value stands for in a numeric comparison; anything that is
/// not a number counts as zero.
pub open spec fn int_coerce(v: ValueSpec) -> int {
    match v {
        ValueSpec::Int(i) => i,
        _ => 0,
    }
}

/// What a condition node decides. The `contains` and emptiness checks
/// apply to string operands only: a value of any other shape, a missing
/// field included, makes them false.
pub open spec fn cond_eval(config: ValueSpec, inputs: ValueSpec) -> bool {
    let field = match conf_str(config, "field"@) {
        Some(f) => f,
        None => Seq::empty(),
    };
    let operator = match conf_str(config, "operator"@) {
        Some(o) => o,
        None => "equals"@,
    };
    let value = match conf_val(config, "value"@) {
        Some(v) => v,
        None => ValueSpec::Null,
    };
    let actual = path_get(inputs, split_dots_spec(field), 0);
    if operator == "equals"@ {
        actual == value
    } else if operator == "notEquals"@ {
        actual != value
    } else if operator == "contains"@ {
        match actual {
            ValueSpec::Str(s) => match value {
                ValueSpec::Str(v) => contains_sub(s, v),
                _ => false,
            },
            _ => false,
        }
    } else if operator == "greaterThan"@ {
        int_coerce(actual) > int_coerce(value)
    } else if operator == "lessThan"@ {
        int_coerce(actual) < int_coerce(value)
    } else if operator == "isEmpty"@ {
        actual matches ValueSpec::Str(s) && s.len() == 0
    } else if operator == "isNotEmpty"@ {
        actual matches ValueSpec::Str(s) && s.len() > 0
    } else {
        false
    }
}

/// The condition node's output: the decision and the branch it names.
pub open spec fn condition_output(config: ValueSpec, inputs: ValueSpec) -> ValueSpec {
    let b = cond_eval(config, inputs);
    ValueSpec::Obj(
        seq![
            ("result"@, ValueSpec::Bool(b)),
            ("branch"@, ValueSpec::Str(if b {
                "true"@
            } else {
                "false"@
            })),
        ],
    )
}

/// Whether the operator characters spell the given word.
fn op_is(op: &Vec<char>, word: &str) -> (r: bool)
    ensures
        r == (op@ == word@),
{
    let wc = crate::text::string_chars(word);
    str_is(op, &wc)
}

/// Runs a condition node: reads a dotted `field` from the inputs and
/// compares it under `operator` against `value`.
#[verifier::rlimit(100)]
pub fn execute_condition_node(config: &Value, inputs: &Value) -> (out: Value)
    ensures
        out.view_spec() == condition_output(config.view_spec(), inputs.view_spec()),
{
    let fkey = String::from_str("field");
    let okey = String::from_str("operator");
    let vkey = String::from_str("value");
    let field = match get_conf_str(config, &fkey) {
        Some(f) => f,
        None => String::new(),
    };
    let operator = match get_conf_str(config, &okey) {
        Some(o) => o,
        None => String::from_str("equals"),
    };
    let value = match get_conf_val(config, &vkey) {
        Some(v) => v,
        None => Value::Null,
    };
    let segs = split_dots(&field);
    let actual = crate::resolve::get_path(inputs, &segs, 0);
    let opchars = crate::text::string_chars(operator.as_str());
    let b: bool = if op_is(&opchars, "equals") {
        actual.deep_eq(&value)
    } else if op_is(&opchars, "notEquals") {
        !actual.deep_eq(&value)
    } else if op_is(&opchars, "contains") {
        match (&actual, &value) {
            (Value::Str(s), Value::Str(v)) => {
                let hay = crate::text::string_chars(s.as_str());
                let needle = crate::text::string_chars(v.as_str());
                find_sub(&hay, &needle)
            },
            _ => false,
        }
    } else if op_is(&opchars, "greaterThan") {
        int_value(&actual) > int_value(&value)
    } else if op_is(&opchars, "lessThan") {
        int_value(&actual) < int_value(&value)
    } else if op_is(&opchars, "isEmpty") {
        match &actual {
            Value::Str(s) => s.as_str().unicode_len() == 0,
            _ => false,
        }
    } else if op_is(&opchars, "isNotEmpty") {
        match &actual {
            Value::Str(s) => s.as_str().unicode_len() > 0,
            _ => false,
        }
    } else {
        false
    };
    let rkey = String::from_str("result");
    let bkey = String::from_str("branch");
    let btext = if b {
        String::from_str("true")
    } else {
        String::from_str("false")
    };
    let mut entries: Vec<Entry> = Vec::new();
    entries.push(Entry { key: rkey, value: Value::Bool(b) });
    entries.push(Entry { key: bkey, value: Value::Str(btext) });
    let out = Value::Obj(entries);
    proof {
        crate::value::lemma_obj_view(entries@);
        assert(obj_view(entries@) =~= seq![
            ("result"@, ValueSpec::Bool(b)),
            ("branch"@, ValueSpec::Str(if b {
                "true"@
            } else {
                "false"@
            })),
        ]);
        assert(b == cond_eval(config.view_spec(), inputs.view_spec()));
    }
    out
}

/// Character-sequence equality against a literal spelled as characters.
fn str_is(s: &Vec<char>, lit_chars: &Vec<char>) -> (r: bool)
    ensures
        r == (s@ == lit_chars@),
{
    let n = s.len();
    if n != lit_chars.len() {
        proof {
            assert(s@.len() != lit_chars@.len());
        }
        return false;
    }
    let mut j: usize = 0;
    while j < n
        invariant
            j <= n,
            n == s@.len(),
            n == lit_chars@.len(),
            forall|j2: int| 0 <= j2 < j ==> s@[j2] == lit_chars@[j2],
        decreases n - j,
    {
        if s[j] != lit_chars[j] {
            return false;
        }
        j = j + 1;
    }
    proof {
        assert(s@ =~= lit_chars@);
    }
    true
}

/// The coerced integer of a value.
fn int_value(v: &Value) -> (r: i64)
    ensures
        r as int == int_coerce(v.view_spec()),
{
    match v {
        Value::Int(i) => *i,
        _ => 0,
    }
}

/// The variable node's output: each string entry substituted, the rest
/// passed through.
pub open spec fn var_map(
    entries: Seq<(Seq<char>, ValueSpec)>,
    inputs: ValueSpec,
) -> Seq<(Seq<char>, ValueSpec)> {
    Seq::new(
        entries.len(),
        |i: int|
            (
                entries[i].0,
                match entries[i].1 {
                    ValueSpec::Str(s) => ValueSpec::Str(subst(s, inputs)),
                    _ => entries[i].1,
                },
            ),
    )
}

/// The variable node's output over its configuration.
pub open spec fn variable_output(config: ValueSpec, inputs: ValueSpec) -> ValueSpec {
    let vars = match conf_val(config, "variables"@) {
        Some(ValueSpec::Obj(entries)) => entries,
        _ => Seq::empty(),
    };
    ValueSpec::Obj(var_map(vars, inputs))
}

/// Runs a variable node: substitutes into each string-valued variable.
#[verifier::loop_isolation(false)]
pub fn execute_variable_node(config: &Value, inputs: &Value) -> (out: Value)
    ensures
        out.view_spec() == variable_output(config.view_spec(), inputs.view_spec()),
{
    let vkey = String::from_str("variables");
    let vars = match get_conf_val(config, &vkey) {
        Some(Value::Obj(entries)) => entries,
        _ => Vec::new(),
    };
    let ghost vspec = obj_view(vars@);
    proof {
        assert(vspec == (match conf_val(config.view_spec(), "variables"@) {
            Some(ValueSpec::Obj(entries)) => entries,
            _ => Seq::<(Seq<char>, ValueSpec)>::empty(),
        })) by {
            if !(conf_val(config.view_spec(), "variables"@) matches Some(ValueSpec::Obj(_))) {
                assert(vars@ =~= Seq::<Entry>::empty());
                assert(obj_view(vars@) =~= Seq::<(Seq<char>, ValueSpec)>::empty());
            }
        }
        crate::value::lemma_obj_view(vars@);
    }
    let mut out: Vec<Entry> = Vec::new();
    let n = vars.len();
    let mut i: usize = 0;
    while i < n
        invariant
            i <= n,
            n == vars@.len(),
            obj_view(out@).len() == i,
            out@.len() == i,
            forall|k: int| 0 <= k < i ==> obj_view(out@)[k] == var_map(vspec, inputs.view_spec())[k],
        decreases n - i,
    {
        proof {
            crate::value::lemma_obj_view(vars@);
        }
        let entry = &vars[i];
        let newval = match &entry.value {
            Value::Str(s) => Value::Str(replace_variables(s, inputs)),
            _ => entry.value.deep_clone(),
        };
        let ghost oldout = out@;
        out.push(Entry { key: entry.key.clone(), value: newval });
        proof {
            crate::value::lemma_obj_view(out@);
            crate::value::lemma_obj_view(oldout);
            assert(out@ == oldout.push(Entry { key: entry.key, value: newval }) || out@.len()
                == oldout.len() + 1);
            assert forall|k: int| 0 <= k < i + 1 implies obj_view(out@)[k] == var_map(
                vspec,
                inputs.view_spec(),
            )[k] by {
                if k < i {
                    assert(out@[k] == oldout[k]);
                    assert(obj_view(out@)[k] == (out@[k].key@, out@[k].value.view_spec()));
                    assert(obj_view(oldout)[k] == (oldout[k].key@, oldout[k].value.view_spec()));
                } else {
                    assert(obj_view(out@)[k] == (out@[k].key@, out@[k].value.view_spec()));
                    assert(vspec[k] == (vars@[k].key@, vars@[k].value.view_spec()));
                }
            }
        }
        i = i + 1;
    }
    let result = Value::Obj(out);
    proof {
        assert(obj_view(out@) =~= var_map(vspec, inputs.view_spec()));
    }
    result
}


/// A character folded to upper case, for ASCII letters only.
pub open spec fn up_char(c: char) -> char {
    if 'a' <= c && c <= 'z' {
        (((c as u32) - 32) as u8) as char
    } else {
        c
    }
}

/// A string folded to upper case, for ASCII letters only.
pub open spec fn upper(s: Seq<char>) -> Seq<char> {
    Seq::new(s.len(), |i: int| up_char(s[i]))
}

/// Folds ASCII letters to upper case.
#[verifier::loop_isolation(false)]
fn to_upper(s: &Vec<char>) -> (out: Vec<char>)
    ensures
        out@ == upper(s@),
{
    let n = s.len();
    let mut out: Vec<char> = Vec::new();
    let mut i: usize = 0;
    while i < n
        invariant
            i <= n,
            n == s@.len(),
            out@.len() == i,
            forall|j: int| 0 <= j < i ==> out@[j] == up_char(#[trigger] s@[j]),
        decreases n - i,
    {
        let c = s[i];
        let code = c as u32;
        if 97 <= code && code <= 122 {
            proof {
                vstd::utf8::char_u32_cast(c, code);
            }
            out.push(((code - 32) as u8) as char);
        } else {
            out.push(c);
        }
        i = i + 1;
    }
    proof {
        assert(out@ =~= upper(s@));
    }
    out
}

/// An HTTP request method.
#[derive(Debug, PartialEq, Eq, Structural, Clone, Copy)]
pub enum HttpMethod {
    Get,
    Post,
    Put,
    Delete,
}

/// The method a configuration names, defaulting to GET.
pub open spec fn method_of(m: Seq<char>) -> HttpMethod {
    if upper(m) == "POST"@ {
        HttpMethod::Post
    } else if upper(m) == "PUT"@ {
        HttpMethod::Put
    } else if upper(m) == "DELETE"@ {
        HttpMethod::Delete
    } else {
        HttpMethod::Get
    }
}

/// A prepared HTTP request: everything the engine decides about the call.
#[derive(Debug)]
pub struct HttpCall {
    pub method: HttpMethod,
    pub url: String,
    pub body: Value,
    pub headers: Vec<(String, String)>,
}

/// The string-valued header entries of a configuration, in order.
pub open spec fn headers_of(entries: Seq<(Seq<char>, ValueSpec)>) -> Seq<(Seq<char>, Seq<char>)>
    decreases entries.len(),
{
    if entries.len() == 0 {
        Seq::empty()
    } else {
        (match entries[0].1 {
            ValueSpec::Str(v) => seq![(entries[0].0, v)],
            _ => Seq::empty(),
        }) + headers_of(entries.subrange(1, entries.len() as int))
    }
}

/// The views of collected header pairs.
pub open spec fn pairs_view(hs: Seq<(String, String)>) -> Seq<(Seq<char>, Seq<char>)> {
    Seq::new(hs.len(), |i: int| (hs[i].0@, hs[i].1@))
}

/// Collects the string-valued headers from entry `from` on.
fn collect_headers(entries: &Vec<Entry>, from: usize) -> (out: Vec<(String, String)>)
    requires
        from <= entries@.len(),
    ensures
        pairs_view(out@) == headers_of(
            obj_view(entries@).subrange(from as int, entries@.len() as int),
        ),
    decreases entries@.len() - from,
{
    proof {
        crate::value::lemma_obj_view(entries@);
    }
    if from >= entries.len() {
        let out: Vec<(String, String)> = Vec::new();
        proof {
            assert(obj_view(entries@).subrange(from as int, entries@.len() as int)
                =~= Seq::<(Seq<char>, ValueSpec)>::empty());
            assert(pairs_view(out@) =~= Seq::<(Seq<char>, Seq<char>)>::empty());
        }
        return out;
    }
    let mut rest = collect_headers(entries, from + 1);
    let ghost tail = obj_view(entries@).subrange(from as int, entries@.len() as int);
    proof {
        assert(tail[0] == (entries@[from as int].key@, entries@[from as int].value.view_spec()));
        assert(tail.subrange(1, tail.len() as int) =~= obj_view(entries@).subrange(
            from + 1 as int,
            entries@.len() as int,
        ));
    }
    match &entries[from].value {
        Value::Str(v) => {
            let mut out: Vec<(String, String)> = Vec::new();
            out.push((entries[from].key.clone(), v.clone()));
            let mut k: usize = 0;
            let n = rest.len();
            while k < n
                invariant
                    k <= n,
                    n == rest@.len(),
                    out@.len() == k + 1,
                    out@[0] == (entries@[from as int].key, *v),
                    forall|j: int| 0 <= j < k ==> out@[j + 1] == rest@[j],
                decreases n - k,
            {
                let pair = (rest[k].0.clone(), rest[k].1.clone());
                proof {
                    assert(pair == rest@[k as int]);
                }
                out.push(pair);
                k = k + 1;
            }
            proof {
                assert(pairs_view(out@) =~= headers_of(tail));
            }
            out
        },
        _ => {
            proof {
                assert(pairs_view(rest@) =~= headers_of(tail));
            }
            rest
        },
    }
}

/// What a prepared HTTP call must hold, read from the node configuration.
pub open spec fn http_call_ok(c: HttpCall, config: ValueSpec, inputs: ValueSpec) -> bool {
    let url = conf_str(config, "url"@)->Some_0;
    let method = match conf_str(config, "method"@) {
        Some(m) => method_of(m),
        None => HttpMethod::Get,
    };
    &&& c.url@ == subst(url, inputs)
    &&& c.method == method
    &&& c.body.view_spec() == (if method == HttpMethod::Post || method == HttpMethod::Put {
        match conf_val(config, "body"@) {
            Some(b) => b,
            None => ValueSpec::Obj(Seq::empty()),
        }
    } else {
        ValueSpec::Null
    })
    &&& pairs_view(c.headers@) == (match conf_val(config, "headers"@) {
        Some(ValueSpec::Obj(entries)) => headers_of(entries),
        _ => Seq::<(Seq<char>, Seq<char>)>::empty(),
    })
}

/// Prepares an HTTP node's request: the URL is required, variables are
/// substituted into it, the method defaults to GET, and only POST and PUT
/// carry a body.
pub fn prepare_http(config: &Value, inputs: &Value) -> (r: Result<HttpCall, String>)
    ensures
        conf_str(config.view_spec(), "url"@) is None <==> (r matches Err(m) && m@
            == "HTTP node missing url"@),
        conf_str(config.view_spec(), "url"@) is Some ==> (r matches Ok(c) && http_call_ok(
            c,
            config.view_spec(),
            inputs.view_spec(),
        )),
{
    let ukey = String::from_str("url");
    let url = match get_conf_str(config, &ukey) {
        Some(u) => u,
        None => {
            return Err(String::from_str("HTTP node missing url"));
        },
    };
    let mkey = String::from_str("method");
    let method = match get_conf_str(config, &mkey) {
        Some(m) => {
            let mc = crate::text::string_chars(m.as_str());
            let um = to_upper(&mc);
            if str_is(&um, &crate::text::string_chars("POST")) {
                HttpMethod::Post
            } else if str_is(&um, &crate::text::string_chars("PUT")) {
                HttpMethod::Put
            } else if str_is(&um, &crate::text::string_chars("DELETE")) {
                HttpMethod::Delete
            } else {
                HttpMethod::Get
            }
        },
        None => HttpMethod::Get,
    };
    let processed_url = replace_variables(&url, inputs);
    let body = if matches!(method, HttpMethod::Post) || matches!(method, HttpMethod::Put) {
        let bkey = String::from_str("body");
        match get_conf_val(config, &bkey) {
            Some(b) => b,
            None => {
                let empty: Vec<Entry> = Vec::new();
                proof {
                    assert(obj_view(empty@) =~= Seq::<(Seq<char>, ValueSpec)>::empty());
                }
                Value::Obj(empty)
            },
        }
    } else {
        Value::Null
    };
    let hkey = String::from_str("headers");
    let headers = match get_conf_val(config, &hkey) {
        Some(Value::Obj(entries)) => {
            let hs = collect_headers(&entries, 0);
            proof {
                crate::value::lemma_obj_view(entries@);
                assert(obj_view(entries@).subrange(0, entries@.len() as int) =~= obj_view(
                    entries@,
                ));
            }
            hs
        },
        _ => {
            let out: Vec<(String, String)> = Vec::new();
            proof {
                assert(pairs_view(out@) =~= Seq::<(Seq<char>, Seq<char>)>::empty());
            }
            out
        },
    };
    Ok(HttpCall { method, url: processed_url, body, headers })
}

/// The model heuristic: names routed to the local model runner.
pub open spec fn is_local_model(m: Seq<char>) -> bool {
    starts_with(m, "ollama:"@) || contains_sub(m, "llama"@) || contains_sub(m, "mistral"@)
}

/// The name with every leading `ollama:` removed.
pub open spec fn strip_all(s: Seq<char>, prefix: Seq<char>) -> Seq<char>
    decreases s.len(),
{
    if prefix.len() > 0 && starts_with(s, prefix) {
        strip_all(s.subrange(prefix.len() as int, s.len() as int), prefix)
    } else {
        s
    }
}

/// Removes every leading repetition of the prefix.
#[verifier::loop_isolation(false)]
fn strip_prefix_all(s: &Vec<char>, prefix: &Vec<char>) -> (out: Vec<char>)
    requires
        prefix@.len() > 0,
    ensures
        out@ == strip_all(s@, prefix@),
    decreases s@.len(),
{
    if has_prefix(s, prefix) {
        let mut rest: Vec<char> = Vec::new();
        let mut j: usize = prefix.len();
        while j < s.len()
            invariant
                prefix@.len() <= j <= s@.len(),
                rest@ == s@.subrange(prefix@.len() as int, j as int),
            decreases s@.len() - j,
        {
            rest.push(s[j]);
            proof {
                assert(rest@ =~= s@.subrange(prefix@.len() as int, j + 1 as int));
            }
            j = j + 1;
        }
        proof {
            assert(rest@ =~= s@.subrange(prefix@.len() as int, s@.len() as int));
        }
        strip_prefix_all(&rest, prefix)
    } else {
        let mut out: Vec<char> = Vec::new();
        let mut j: usize = 0;
        while j < s.len()
            invariant
                j <= s@.len(),
                out@ == s@.subrange(0, j as int),
            decreases s@.len() - j,
        {
            out.push(s[j]);
            proof {
                assert(out@ =~= s@.subrange(0, j + 1 as int));
            }
            j = j + 1;
        }
        proof {
            assert(out@ =~= s@);
        }
        out
    }
}

/// A prepared model call: the chosen model, whether it is served locally,
/// and the two messages of the exchange.
#[derive(Debug)]
pub struct ChatCall {
    pub model: String,
    pub local: bool,
    pub system_prompt: String,
    pub user_prompt: String,
}

/// What a prepared model call must hold, read from the node configuration.
pub open spec fn chat_call_ok(c: ChatCall, config: ValueSpec, inputs: ValueSpec) -> bool {
    let model = match conf_str(config, "model"@) {
        Some(m) => m,
        None => "gpt-4o-mini"@,
    };
    let system = match conf_str(config, "systemPrompt"@) {
        Some(sp) => sp,
        None => Seq::empty(),
    };
    let user = match conf_str(config, "userPrompt"@) {
        Some(u) => u,
        None => Seq::empty(),
    };
    &&& c.local == is_local_model(model)
    &&& c.model@ == (if is_local_model(model) {
        strip_all(model, "ollama:"@)
    } else {
        model
    })
    &&& c.system_prompt@ == system
    &&& c.user_prompt@ == subst(user, inputs)
}

/// Prepares a model node's call: resolves the model name and prompts,
/// substitutes variables into the user prompt, and decides whether the
/// local model runner serves the model.
pub fn prepare_llm(config: &Value, inputs: &Value) -> (c: ChatCall)
    ensures
        chat_call_ok(c, config.view_spec(), inputs.view_spec()),
{
    let mkey = String::from_str("model");
    let model = match get_conf_str(config, &mkey) {
        Some(m) => m,
        None => String::from_str("gpt-4o-mini"),
    };
    let skey = String::from_str("systemPrompt");
    let system_prompt = match get_conf_str(config, &skey) {
        Some(sp) => sp,
        None => String::new(),
    };
    let ukey = String::from_str("userPrompt");
    let user_prompt = match get_conf_str(config, &ukey) {
        Some(u) => u,
        None => String::new(),
    };
    let processed = replace_variables(&user_prompt, inputs);
    let mc = crate::text::string_chars(model.as_str());
    let ollama_prefix = crate::text::string_chars("ollama:");
    proof {
        reveal_strlit("ollama:");
    }
    let local = has_prefix(&mc, &ollama_prefix) || find_sub(&mc, &crate::text::string_chars("llama"))
        || find_sub(&mc, &crate::text::string_chars("mistral"));
    let chat_model = if local {
        crate::text::chars_to_string(&strip_prefix_all(&mc, &ollama_prefix))
    } else {
        model
    };
    ChatCall { model: chat_model, local, system_prompt, user_prompt: processed }
}

/// The HTTP node's output for one response.
pub fn http_response_value(status: i64, body: Value) -> (out: Value)
    ensures
        out.view_spec() == ValueSpec::Obj(
            seq![("status"@, ValueSpec::Int(status as int)), ("body"@, body.view_spec())],
        ),
{
    let mut entries: Vec<Entry> = Vec::new();
    entries.push(Entry { key: String::from_str("status"), value: Value::Int(status) });
    entries.push(Entry { key: String::from_str("body"), value: body });
    let ghost snapshot = entries@;
    let out = Value::Obj(entries);
    proof {
        crate::value::lemma_obj_view(snapshot);
        assert(obj_view(snapshot) =~= seq![
            ("status"@, ValueSpec::Int(status as int)),
            ("body"@, snapshot[1].value.view_spec()),
        ]);
    }
    out
}

/// The model node's output for one response.
pub fn chat_response_value(text: String, model: String) -> (out: Value)
    ensures
        out.view_spec() == ValueSpec::Obj(
            seq![("text"@, ValueSpec::Str(text@)), ("model"@, ValueSpec::Str(model@))],
        ),
{
    let mut entries: Vec<Entry> = Vec::new();
    entries.push(Entry { key: String::from_str("text"), value: Value::Str(text) });
    entries.push(Entry { key: String::from_str("model"), value: Value::Str(model) });
    let ghost snapshot = entries@;
    let out = Value::Obj(entries);
    proof {
        crate::value::lemma_obj_view(snapshot);
        assert(obj_view(snapshot) =~= seq![
            ("text"@, snapshot[0].value.view_spec()),
            ("model"@, snapshot[1].value.view_spec()),
        ]);
    }
    out
}

/// What one node asks of the engine.
#[derive(Debug)]
pub enum NodeAction {
    /// The node finished on its own, with these outputs.
    Output(Value),
    /// The node needs an HTTP request performed.
    CallHttp(HttpCall),
    /// The node needs a model exchange performed.
    CallChat(ChatCall),
    /// The node's configuration is invalid.
    Invalid(String),
}

/// Runs one node as far as the library can: pure nodes produce their
/// outputs; HTTP and model nodes produce the call to perform; `start`,
/// `end`, `code` and unknown tags pass their inputs through.
pub fn execute_node(node_type: &String, config: &Value, inputs: &Value) -> (r: NodeAction)
    ensures
        node_type@ == "template"@ ==> (r matches NodeAction::Output(o) && o.view_spec()
            == template_output(config.view_spec(), inputs.view_spec())),
        node_type@ == "condition"@ ==> (r matches NodeAction::Output(o) && o.view_spec()
            == condition_output(config.view_spec(), inputs.view_spec())),
        node_type@ == "variable"@ ==> (r matches NodeAction::Output(o) && o.view_spec()
            == variable_output(config.view_spec(), inputs.view_spec())),
        node_type@ == "http"@ && conf_str(config.view_spec(), "url"@) is Some ==> (
        r matches NodeAction::CallHttp(c) && http_call_ok(
            c,
            config.view_spec(),
            inputs.view_spec(),
        )),
        node_type@ == "http"@ && conf_str(config.view_spec(), "url"@) is None ==> (
        r matches NodeAction::Invalid(m) && m@ == "HTTP node missing url"@),
        node_type@ == "llm"@ ==> (r matches NodeAction::CallChat(c) && chat_call_ok(
            c,
            config.view_spec(),
            inputs.view_spec(),
        )),
        node_type@ != "template"@ && node_type@ != "condition"@ && node_type@ != "variable"@
            && node_type@ != "http"@ && node_type@ != "llm"@ ==> (r matches NodeAction::Output(o)
            && o.view_spec() == inputs.view_spec()),
{
    proof {
        reveal_strlit("template");
        reveal_strlit("condition");
        reveal_strlit("variable");
        reveal_strlit("http");
        reveal_strlit("llm");
        assert("template"@.len() == 8);
        assert("condition"@.len() == 9);
        assert("variable"@.len() == 8);
        assert("http"@.len() == 4);
        assert("llm"@.len() == 3);
        assert("template"@[0] == 't');
        assert("variable"@[0] == 'v');
        assert("template"@ != "condition"@);
        assert("template"@ != "variable"@);
        assert("template"@ != "http"@);
        assert("template"@ != "llm"@);
        assert("condition"@ != "variable"@);
        assert("condition"@ != "http"@);
        assert("condition"@ != "llm"@);
        assert("variable"@ != "http"@);
        assert("variable"@ != "llm"@);
        assert("http"@ != "llm"@);
    }
    let tc = crate::text::string_chars(node_type.as_str());
    if op_is(&tc, "template") {
        NodeAction::Output(execute_template_node(config, inputs))
    } else if op_is(&tc, "condition") {
        NodeAction::Output(execute_condition_node(config, inputs))
    } else if op_is(&tc, "variable") {
        NodeAction::Output(execute_variable_node(config, inputs))
    } else if op_is(&tc, "http") {
        match prepare_http(config, inputs) {
            Ok(c) => NodeAction::CallHttp(c),
            Err(m) => NodeAction::Invalid(m),
        }
    } else if op_is(&tc, "llm") {
        NodeAction::CallChat(prepare_llm(config, inputs))
    } else {
        NodeAction::Output(inputs.deep_clone())
    }
}

} // verus!
