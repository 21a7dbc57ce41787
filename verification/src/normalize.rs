use vstd::prelude::*;

verus! {

#[verifier::external_type_specification]
#[verifier::external_body]
pub struct ExRegex(regex::Regex);

#[verifier::external_type_specification]
#[verifier::external_body]
pub struct ExRegexError(regex::Error);

/// Whether `regex::Regex::new` accepts the pattern.
pub uninterp spec fn pattern_compiles(pattern: Seq<char>) -> bool;

/// What `regex::Regex::replace_all` with an empty replacement leaves of
/// `text` for the pattern `pattern`.
pub uninterp spec fn strip_matches(pattern: Seq<char>, text: Seq<char>) -> Seq<char>;

/// Calls `regex::Regex::new`. Claims only that whether it succeeds is a
/// function of the pattern text (named `pattern_compiles`).
#[verifier::external_body]
fn compile_regex(pattern: &str) -> (compiled: Result<regex::Regex, regex::Error>)
    ensures
        compiled is Ok <==> pattern_compiles(pattern@),
{
    regex::Regex::new(pattern)
}

/// Calls `String::push`, which appends one character.
#[verifier::external_body]
fn push_char(text: &mut String, c: char)
    ensures
        final(text)@ == old(text)@.push(c),
{
    text.push(c)
}

/// A compiled normalization pattern together with its source text.
#[derive(Debug)]
pub struct Pattern {
    source: String,
    compiled: regex::Regex,
}

impl View for Pattern {
    type V = Seq<char>;

    closed spec fn view(&self) -> Seq<char> {
        self.source@
    }
}

/// Calls `regex::Regex::replace_all` with an empty replacement on the regex
/// compiled from the pattern's source (the only way a `Pattern` is built).
/// Claims that the result is a function of the source and the text (named
/// `strip_matches`).
#[verifier::external_body]
fn remove_matches(pattern: &Pattern, text: &str) -> (stripped: String)
    ensures
        stripped@ == strip_matches(pattern@, text@),
{
    pattern.compiled.replace_all(text, "").into_owned()
}

impl Pattern {
    /// Compiles `source`.
    pub fn compile(source: &str) -> (pattern: Result<Pattern, regex::Error>)
        ensures
            pattern is Ok <==> pattern_compiles(source@),
            pattern matches Ok(p) ==> p@ == source@,
    {
        match compile_regex(source) {
            Ok(compiled) => Ok(Pattern { source: source.to_string(), compiled }),
            Err(error) => Err(error),
        }
    }

    /// `text` with every match removed.
    pub fn strip(&self, text: &str) -> (stripped: String)
        ensures
            stripped@ == strip_matches(self@, text@),
    {
        remove_matches(self, text)
    }
}

/// `text` with "\r\n" and lone "\r" line endings turned into "\n".
pub open spec fn unix_newlines(text: Seq<char>) -> Seq<char>
    decreases text.len(),
{
    if text.len() == 0 {
        Seq::empty()
    } else if text[0] == '\r' {
        let rest = if text.len() > 1 && text[1] == '\n' {
            text.skip(2)
        } else {
            text.skip(1)
        };
        seq!['\n'] + unix_newlines(rest)
    } else {
        seq![text[0]] + unix_newlines(text.skip(1))
    }
}

proof fn lemma_no_carriage_return(text: Seq<char>)
    ensures
        forall|i: int| 0 <= i < unix_newlines(text).len() ==> #[trigger] unix_newlines(text)[i] != '\r',
    decreases text.len(),
{
    if text.len() > 0 {
        let rest = if text[0] == '\r' && text.len() > 1 && text[1] == '\n' {
            text.skip(2)
        } else {
            text.skip(1)
        };
        lemma_no_carriage_return(rest);
        let out = unix_newlines(text);
        assert forall|i: int| 0 <= i < out.len() implies #[trigger] out[i] != '\r' by {
            if i > 0 {
                assert(out[i] == unix_newlines(rest)[i - 1]);
            }
        }
    }
}

proof fn lemma_unchanged_without_carriage_return(text: Seq<char>)
    requires
        forall|i: int| 0 <= i < text.len() ==> #[trigger] text[i] != '\r',
    ensures
        unix_newlines(text) == text,
    decreases text.len(),
{
    if text.len() > 0 {
        assert(text[0] != '\r');
        let rest = text.skip(1);
        assert forall|i: int| 0 <= i < rest.len() implies #[trigger] rest[i] != '\r' by {
            assert(rest[i] == text[i + 1]);
        }
        lemma_unchanged_without_carriage_return(rest);
        assert(unix_newlines(text) =~= text);
    }
}

/// Line-ending normalization leaves no carriage return, so normalizing
/// twice is normalizing once: a text with Windows or old Mac line endings
/// and its Unix form normalize alike.
pub proof fn lemma_line_endings_normalize_once(text: Seq<char>)
    ensures
        forall|i: int| 0 <= i < unix_newlines(text).len() ==> #[trigger] unix_newlines(text)[i] != '\r',
        unix_newlines(unix_newlines(text)) == unix_newlines(text),
{
    lemma_no_carriage_return(text);
    lemma_unchanged_without_carriage_return(unix_newlines(text));
}

/// Line-ending normalization read from the back: the output for a prefix
/// and whether its last character was a carriage return.
pub open spec fn newline_state(text: Seq<char>) -> (Seq<char>, bool)
    decreases text.len(),
{
    if text.len() == 0 {
        (Seq::empty(), false)
    } else {
        let (out, after_cr) = newline_state(text.drop_last());
        let c = text.last();
        if c == '\r' {
            (out.push('\n'), true)
        } else if c == '\n' && after_cr {
            (out, false)
        } else {
            (out.push(c), false)
        }
    }
}

proof fn lemma_newline_state(text: Seq<char>)
    ensures
        newline_state(text).0 == unix_newlines(text),
        newline_state(text).1 == (text.len() > 0 && text.last() == '\r'),
    decreases text.len(),
{
    if text.len() > 0 {
        lemma_newline_state(text.drop_last());
        lemma_unix_newlines_snoc(text.drop_last(), text.last());
        assert(text.drop_last().push(text.last()) =~= text);
    }
}

/// Appending one character to the input extends the normalized output.
proof fn lemma_unix_newlines_snoc(text: Seq<char>, c: char)
    ensures
        unix_newlines(text.push(c)) == if c == '\r' {
            unix_newlines(text).push('\n')
        } else if c == '\n' && text.len() > 0 && text.last() == '\r' {
            unix_newlines(text)
        } else {
            unix_newlines(text).push(c)
        },
    decreases text.len(),
{
    let t = text.push(c);
    assert(unix_newlines(Seq::<char>::empty()) =~= Seq::<char>::empty());
    if text.len() == 0 {
        reveal_with_fuel(unix_newlines, 2);
        assert(t.skip(1) =~= Seq::<char>::empty());
        assert(unix_newlines(t) =~= seq![if c == '\r' { '\n' } else { c }]);
    } else if text[0] == '\r' && text.len() == 1 {
        reveal_with_fuel(unix_newlines, 3);
        if c == '\n' {
            assert(t.skip(2) =~= Seq::<char>::empty());
        } else {
            assert(t.skip(1) =~= seq![c]);
            assert(text.skip(1) =~= Seq::<char>::empty());
            assert(seq![c].skip(1) =~= Seq::<char>::empty());
            assert(unix_newlines(seq![c]) =~= seq![if c == '\r' { '\n' } else { c }]);
        }
        assert(unix_newlines(text) =~= seq!['\n']);
    } else if text[0] == '\r' && text[1] == '\n' {
        assert(t.skip(2) =~= text.skip(2).push(c));
        lemma_unix_newlines_snoc(text.skip(2), c);
        if text.len() > 2 {
            assert(text.skip(2).last() == text.last());
        }
    } else if text[0] == '\r' {
        assert(t.skip(1) =~= text.skip(1).push(c));
        lemma_unix_newlines_snoc(text.skip(1), c);
        assert(text.skip(1).last() == text.last());
    } else {
        assert(t.skip(1) =~= text.skip(1).push(c));
        lemma_unix_newlines_snoc(text.skip(1), c);
        if text.len() > 1 {
            assert(text.skip(1).last() == text.last());
        }
    }
}

/// Turns "\r\n" and lone "\r" line endings into "\n".
pub fn unix_line_endings(text: &str) -> (normalized: String)
    ensures
        normalized@ == unix_newlines(text@),
{
    let mut out = String::new();
    let mut after_cr = false;
    for c in it: text.chars()
        invariant
            it.seq() == text@,
            (out@, after_cr) == newline_state(text@.take(it.index() as int)),
    {
        proof {
            assert(text@.take(it.index() + 1).drop_last() =~= text@.take(it.index() as int));
            assert(text@.take(it.index() + 1).last() == c);
        }
        if c == '\r' {
            push_char(&mut out, '\n');
            after_cr = true;
        } else if c == '\n' && after_cr {
            after_cr = false;
        } else {
            push_char(&mut out, c);
            after_cr = false;
        }
    }
    proof {
        assert(text@.take(text@.len() as int) =~= text@);
        lemma_newline_state(text@);
    }
    out
}

/// Why normalization failed: a pattern did not compile.
#[derive(Debug)]
pub struct NormalizeError {
    pub pattern: String,
    pub error: regex::Error,
}

/// The first pattern that does not compile, if any.
pub open spec fn first_bad_pattern(patterns: Seq<String>) -> Option<int> {
    if exists|i: int| 0 <= i < patterns.len() && !pattern_compiles(patterns[i]@) {
        Some(choose|i: int| 0 <= i < patterns.len() && !pattern_compiles(patterns[i]@) && forall|j: int| 0 <= j < i ==> pattern_compiles(patterns[j]@))
    } else {
        None
    }
}

/// `text` with the matches of each pattern removed in turn.
pub open spec fn strip_all(text: Seq<char>, patterns: Seq<String>) -> Seq<char>
    decreases patterns.len(),
{
    if patterns.len() == 0 {
        text
    } else {
        strip_matches(patterns.last()@, strip_all(text, patterns.drop_last()))
    }
}

/// Normalizes an artifact's text for comparison: Unix line endings, then
/// every match of each pattern removed, in order.
pub fn normalize_text(input: &str, patterns: &[String]) -> (normalized: Result<String, NormalizeError>)
    ensures
        match normalized {
            Ok(text) => first_bad_pattern(patterns@) is None && text@ == strip_all(unix_newlines(input@), patterns@),
            Err(e) => first_bad_pattern(patterns@) matches Some(i) && e.pattern@ == patterns@[i]@,
        },
{
    let mut normalized = unix_line_endings(input);
    let mut i: usize = 0;
    while i < patterns.len()
        invariant
            i <= patterns@.len(),
            forall|j: int| 0 <= j < i ==> pattern_compiles(patterns@[j]@),
            normalized@ == strip_all(unix_newlines(input@), patterns@.take(i as int)),
        decreases patterns@.len() - i,
    {
        match Pattern::compile(patterns[i].as_str()) {
            Ok(pattern) => {
                normalized = pattern.strip(normalized.as_str());
                proof {
                    assert(patterns@.take(i + 1).drop_last() =~= patterns@.take(i as int));
                }
            },
            Err(error) => {
                proof {
                    let k = i as int;
                    assert(0 <= k < patterns@.len() && !pattern_compiles(patterns@[k]@));
                    let c = choose|c: int| 0 <= c < patterns@.len() && !pattern_compiles(patterns@[c]@) && forall|j: int| 0 <= j < c ==> pattern_compiles(patterns@[j]@);
                    assert(forall|j: int| 0 <= j < k ==> pattern_compiles(patterns@[j]@));
                    if c < k {
                        assert(pattern_compiles(patterns@[c]@));
                    }
                    if c > k {
                        assert(pattern_compiles(patterns@[k]@));
                    }
                }
                return Err(NormalizeError { pattern: patterns[i].clone(), error });
            },
        }
        i = i + 1;
    }
    assert(patterns@.take(patterns@.len() as int) =~= patterns@);
    Ok(normalized)
}


/// A failing pattern with every earlier one compiling is the first bad one.
pub proof fn lemma_first_bad_pattern_at(patterns: Seq<String>, i: int)
    requires
        0 <= i < patterns.len(),
        !pattern_compiles(patterns[i]@),
        forall|j: int| 0 <= j < i ==> pattern_compiles(patterns[j]@),
    ensures
        first_bad_pattern(patterns) == Some(i),
{
    let c = choose|c: int| 0 <= c < patterns.len() && !pattern_compiles(patterns[c]@) && forall|j: int| 0 <= j < c ==> pattern_compiles(patterns[j]@);
    if c < i {
        assert(pattern_compiles(patterns[c]@));
    }
    if c > i {
        assert(pattern_compiles(patterns[i]@));
    }
}

} // verus!
