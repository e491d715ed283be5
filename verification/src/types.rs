//! The annotation data model: type keywords, certainty marks, scopes and
//! the parsed annotation record.
use crate::text::{chars_of, is_ascii_digit, range_is};
use vstd::prelude::*;

verus! {

/// The annotation type keyword.
#[derive(Debug, Clone, Copy, PartialEq, Eq, Structural)]
pub enum AnnotationType {
    Note,
    Question,
    Todo,
    CrossRef,
    Apparatus,
    Translation,
    Llm,
    Thread,
    /// A philological mark code (built-in or custom) in the type slot.
    Mark,
    Bare,
}

/// The keyword that spells each annotation type.
pub open spec fn type_keyword(s: Seq<char>) -> Option<AnnotationType> {
    if s == seq!['n'] {
        Some(AnnotationType::Note)
    } else if s == seq!['q'] {
        Some(AnnotationType::Question)
    } else if s == seq!['t', 'o', 'd', 'o'] {
        Some(AnnotationType::Todo)
    } else if s == seq!['c', 'f'] {
        Some(AnnotationType::CrossRef)
    } else if s == seq!['a', 'p', 'p'] {
        Some(AnnotationType::Apparatus)
    } else if s == seq!['t', 'r'] {
        Some(AnnotationType::Translation)
    } else if s == seq!['l', 'l', 'm'] {
        Some(AnnotationType::Llm)
    } else if s == seq!['t', 'h'] {
        Some(AnnotationType::Thread)
    } else {
        None
    }
}

/// Type keyword spelled by `v[lo..hi]`.
pub fn type_keyword_exec(v: &Vec<char>, lo: usize, hi: usize) -> (r: Option<AnnotationType>)
    requires
        lo <= hi <= v.len(),
    ensures
        r == type_keyword(v@.subrange(lo as int, hi as int)),
{
    let k_n: &[char] = &['n'];
    let k_q: &[char] = &['q'];
    let k_todo: &[char] = &['t', 'o', 'd', 'o'];
    let k_cf: &[char] = &['c', 'f'];
    let k_app: &[char] = &['a', 'p', 'p'];
    let k_tr: &[char] = &['t', 'r'];
    let k_llm: &[char] = &['l', 'l', 'm'];
    let k_th: &[char] = &['t', 'h'];
    assert(k_n@ == seq!['n']);
    assert(k_q@ == seq!['q']);
    assert(k_todo@ == seq!['t', 'o', 'd', 'o']);
    assert(k_cf@ == seq!['c', 'f']);
    assert(k_app@ == seq!['a', 'p', 'p']);
    assert(k_tr@ == seq!['t', 'r']);
    assert(k_llm@ == seq!['l', 'l', 'm']);
    assert(k_th@ == seq!['t', 'h']);
    if range_is(v, lo, hi, k_n) {
        Some(AnnotationType::Note)
    } else if range_is(v, lo, hi, k_q) {
        Some(AnnotationType::Question)
    } else if range_is(v, lo, hi, k_todo) {
        Some(AnnotationType::Todo)
    } else if range_is(v, lo, hi, k_cf) {
        Some(AnnotationType::CrossRef)
    } else if range_is(v, lo, hi, k_app) {
        Some(AnnotationType::Apparatus)
    } else if range_is(v, lo, hi, k_tr) {
        Some(AnnotationType::Translation)
    } else if range_is(v, lo, hi, k_llm) {
        Some(AnnotationType::Llm)
    } else if range_is(v, lo, hi, k_th) {
        Some(AnnotationType::Thread)
    } else {
        None
    }
}

impl AnnotationType {
    /// The type spelled by a keyword (`n`, `q`, `todo`, `cf`, `app`, `tr`,
    /// `llm`, `th`); case-sensitive.
    pub fn from_str(s: &str) -> (r: Option<AnnotationType>)
        ensures
            r == type_keyword(s@),
    {
        let v = chars_of(s);
        proof {
            assert(v@.subrange(0, v@.len() as int) =~= v@);
        }
        type_keyword_exec(&v, 0, v.len())
    }
}

/// Certainty mark following the type.
#[derive(Debug, Clone, Copy, PartialEq, Eq, Structural)]
pub enum Certainty {
    Tentative,
    Firm,
    Neutral,
}

pub open spec fn certainty_of(c: char) -> Certainty {
    if c == '?' {
        Certainty::Tentative
    } else if c == '!' {
        Certainty::Firm
    } else {
        Certainty::Neutral
    }
}

impl Certainty {
    /// `?` is tentative, `!` firm, anything else neutral.
    pub fn from_char(c: char) -> (r: Certainty)
        ensures
            r == certainty_of(c),
    {
        if c == '?' {
            Certainty::Tentative
        } else if c == '!' {
            Certainty::Firm
        } else {
            Certainty::Neutral
        }
    }
}

/// Scope: how much surrounding text the annotation applies to.
#[derive(Debug, Clone, PartialEq, Eq)]
pub enum Scope {
    /// `_` = 1 word, `__` = 2 words, etc.
    Words(u8),
    /// `\p` = 1 (current paragraph), `\pp` or `\p__` = 2 (current + preceding), etc.
    Paragraph(u8),
    /// `\f` = 1 (current page), `\ff` or `\f__` = 2, etc.
    Page(u8),
    /// `\s` = 1 (current sentence), `\ss` or `\s__` = 2, etc.
    Sentence(u8),
    /// `^"text"`: explicit anchor by search key
    Anchor(String),
    /// `\h`: the current markdown section
    Section,
    /// `\d`: the entire document
    Document,
    /// `N_M`: N words before, M words after
    AsymWords(u8, u8),
    /// `N\sM`: N sentences before, M after
    AsymSentence(u8, u8),
    /// `N\pM`: N paragraphs before, M after
    AsymParagraph(u8, u8),
    /// `N\fM`: N pages before, M after
    AsymPage(u8, u8),
}

/// The mathematical value of a [`Scope`].
pub enum ScopeView {
    Words(u8),
    Paragraph(u8),
    Page(u8),
    Sentence(u8),
    Anchor(Seq<char>),
    Section,
    Document,
    AsymWords(u8, u8),
    AsymSentence(u8, u8),
    AsymParagraph(u8, u8),
    AsymPage(u8, u8),
}

impl View for Scope {
    type V = ScopeView;

    open spec fn view(&self) -> ScopeView {
        match self {
            Scope::Words(n) => ScopeView::Words(*n),
            Scope::Paragraph(n) => ScopeView::Paragraph(*n),
            Scope::Page(n) => ScopeView::Page(*n),
            Scope::Sentence(n) => ScopeView::Sentence(*n),
            Scope::Anchor(s) => ScopeView::Anchor(s@),
            Scope::Section => ScopeView::Section,
            Scope::Document => ScopeView::Document,
            Scope::AsymWords(n, m) => ScopeView::AsymWords(*n, *m),
            Scope::AsymSentence(n, m) => ScopeView::AsymSentence(*n, *m),
            Scope::AsymParagraph(n, m) => ScopeView::AsymParagraph(*n, *m),
            Scope::AsymPage(n, m) => ScopeView::AsymPage(*n, *m),
        }
    }
}

pub open spec fn opt_scope_view(s: Option<Scope>) -> Option<ScopeView> {
    match s {
        Some(x) => Some(x@),
        None => None,
    }
}

/// A count written as a run of characters is stored in a byte (wrapping).
pub open spec fn count_u8(n: int) -> u8 {
    (n % 256) as u8
}

pub open spec fn all_eq(s: Seq<char>, c: char) -> bool {
    forall|k: int| 0 <= k < s.len() ==> s[k] == c
}

/// Count denoted by the suffix after `\p`, `\f` or `\s`: nothing or a run
/// of the same letter counts the letters (including the first); a run of
/// underscores counts the underscores.
pub open spec fn unit_count(rest: Seq<char>, letter: char) -> Option<u8> {
    if all_eq(rest, letter) {
        Some(count_u8(1 + rest.len() as int))
    } else if all_eq(rest, '_') {
        Some(count_u8(rest.len() as int))
    } else {
        None
    }
}

pub open spec fn digit_value(c: char) -> u8 {
    ((c as u32) - ('0' as u32)) as u8
}

/// The scope denoted by a scope token, if it is one.
pub open spec fn parse_scope(s: Seq<char>) -> Option<ScopeView> {
    if s.len() > 0 && s[0] == '_' && all_eq(s, '_') {
        Some(ScopeView::Words(count_u8(s.len() as int)))
    } else if s.len() >= 2 && s[0] == '\\' && s[1] == 'p' {
        match unit_count(s.skip(2), 'p') {
            Some(n) => Some(ScopeView::Paragraph(n)),
            None => None,
        }
    } else if s.len() >= 2 && s[0] == '\\' && s[1] == 'f' {
        match unit_count(s.skip(2), 'f') {
            Some(n) => Some(ScopeView::Page(n)),
            None => None,
        }
    } else if s.len() >= 2 && s[0] == '\\' && s[1] == 's' {
        match unit_count(s.skip(2), 's') {
            Some(n) => Some(ScopeView::Sentence(n)),
            None => None,
        }
    } else if s == seq!['\\', 'h'] {
        Some(ScopeView::Section)
    } else if s == seq!['\\', 'd'] {
        Some(ScopeView::Document)
    } else if s.len() == 3 && is_ascii_digit(s[0]) && s[1] == '_' && is_ascii_digit(s[2]) {
        Some(ScopeView::AsymWords(digit_value(s[0]), digit_value(s[2])))
    } else if s.len() == 4 && is_ascii_digit(s[0]) && s[1] == '\\' && is_ascii_digit(s[3]) && (
    s[2] == 's' || s[2] == 'p' || s[2] == 'f') {
        let n = digit_value(s[0]);
        let m = digit_value(s[3]);
        if s[2] == 's' {
            Some(ScopeView::AsymSentence(n, m))
        } else if s[2] == 'p' {
            Some(ScopeView::AsymParagraph(n, m))
        } else {
            Some(ScopeView::AsymPage(n, m))
        }
    } else {
        None
    }
}

/// The scope a scope token denotes, defaulting to one sentence.
pub open spec fn scope_or_default(s: Seq<char>) -> ScopeView {
    match parse_scope(s) {
        Some(sc) => sc,
        None => ScopeView::Sentence(1),
    }
}

/// Scopes written with the newer notations (section, document, asymmetric).
pub open spec fn is_new_style(sc: ScopeView) -> bool {
    match sc {
        ScopeView::Section | ScopeView::Document | ScopeView::AsymWords(..)
        | ScopeView::AsymSentence(..) | ScopeView::AsymParagraph(..) | ScopeView::AsymPage(
            ..,
        ) => true,
        _ => false,
    }
}

/// Whether `v[lo..hi]` consists of `c` only.
pub fn all_eq_exec(v: &Vec<char>, lo: usize, hi: usize, c: char) -> (b: bool)
    requires
        lo <= hi <= v.len(),
    ensures
        b == all_eq(v@.subrange(lo as int, hi as int), c),
{
    let ghost s = v@.subrange(lo as int, hi as int);
    let mut k = lo;
    while k < hi
        invariant
            lo <= k <= hi <= v.len(),
            s == v@.subrange(lo as int, hi as int),
            forall|m: int| 0 <= m < k - lo ==> s[m] == c,
        decreases hi - k,
    {
        if v[k] != c {
            assert(s[k - lo] != c);
            return false;
        }
        k += 1;
    }
    true
}

fn unit_count_exec(v: &Vec<char>, lo: usize, hi: usize, letter: char) -> (r: Option<u8>)
    requires
        lo <= hi <= v.len(),
    ensures
        r == unit_count(v@.subrange(lo as int, hi as int), letter),
{
    if all_eq_exec(v, lo, hi, letter) {
        Some(((1 + (hi - lo) % 256) % 256) as u8)
    } else if all_eq_exec(v, lo, hi, '_') {
        Some(((hi - lo) % 256) as u8)
    } else {
        None
    }
}

fn is_digit_exec(c: char) -> (b: bool)
    ensures
        b == is_ascii_digit(c),
{
    '0' <= c && c <= '9'
}

fn digit_value_exec(c: char) -> (d: u8)
    requires
        is_ascii_digit(c),
    ensures
        d == digit_value(c),
{
    ((c as u32) - ('0' as u32)) as u8
}

/// The scope denoted by the token `v[lo..hi]`.
pub fn parse_scope_exec(v: &Vec<char>, lo: usize, hi: usize) -> (r: Option<Scope>)
    requires
        lo <= hi <= v.len(),
    ensures
        opt_scope_view(r) == parse_scope(v@.subrange(lo as int, hi as int)),
        r matches Some(sc) ==> !(sc is Anchor),
{
    let ghost s = v@.subrange(lo as int, hi as int);
    let len = hi - lo;
    proof {
        assert(len >= 2 ==> s.skip(2) =~= v@.subrange(lo + 2, hi as int));
    }
    if len > 0 && v[lo] == '_' && all_eq_exec(v, lo, hi, '_') {
        Some(Scope::Words((len % 256) as u8))
    } else if len >= 2 && v[lo] == '\\' && v[lo + 1] == 'p' {
        match unit_count_exec(v, lo + 2, hi, 'p') {
            Some(n) => Some(Scope::Paragraph(n)),
            None => None,
        }
    } else if len >= 2 && v[lo] == '\\' && v[lo + 1] == 'f' {
        match unit_count_exec(v, lo + 2, hi, 'f') {
            Some(n) => Some(Scope::Page(n)),
            None => None,
        }
    } else if len >= 2 && v[lo] == '\\' && v[lo + 1] == 's' {
        match unit_count_exec(v, lo + 2, hi, 's') {
            Some(n) => Some(Scope::Sentence(n)),
            None => None,
        }
    } else if {
        let k_h: &[char] = &['\\', 'h'];
        assert(k_h@ == seq!['\\', 'h']);
        range_is(v, lo, hi, k_h)
    } {
        Some(Scope::Section)
    } else if {
        let k_d: &[char] = &['\\', 'd'];
        assert(k_d@ == seq!['\\', 'd']);
        range_is(v, lo, hi, k_d)
    } {
        Some(Scope::Document)
    } else if len == 3 && is_digit_exec(v[lo]) && v[lo + 1] == '_' && is_digit_exec(v[lo + 2]) {
        Some(Scope::AsymWords(digit_value_exec(v[lo]), digit_value_exec(v[lo + 2])))
    } else if len == 4 && is_digit_exec(v[lo]) && v[lo + 1] == '\\' && is_digit_exec(v[lo + 3])
        && (v[lo + 2] == 's' || v[lo + 2] == 'p' || v[lo + 2] == 'f') {
        let n = digit_value_exec(v[lo]);
        let m = digit_value_exec(v[lo + 3]);
        if v[lo + 2] == 's' {
            Some(Scope::AsymSentence(n, m))
        } else if v[lo + 2] == 'p' {
            Some(Scope::AsymParagraph(n, m))
        } else {
            Some(Scope::AsymPage(n, m))
        }
    } else {
        None
    }
}

impl Scope {
    /// Try to parse a scope string. Returns None for unrecognized patterns.
    pub fn try_parse(s: &str) -> (r: Option<Scope>)
        ensures
            opt_scope_view(r) == parse_scope(s@),
    {
        let v = chars_of(s);
        proof {
            assert(v@.subrange(0, v@.len() as int) =~= v@);
        }
        parse_scope_exec(&v, 0, v.len())
    }

    /// The scope a token denotes; unrecognized tokens default to one sentence.
    pub fn from_str(s: &str) -> (r: Scope)
        ensures
            r@ == scope_or_default(s@),
    {
        match Scope::try_parse(s) {
            Some(sc) => sc,
            None => Scope::Sentence(1),
        }
    }
}

/// The form the annotation was written in.
#[derive(Debug, Clone, Copy, PartialEq, Eq, Structural)]
pub enum AnnotationForm {
    Compact,
    Block,
}

/// A fully parsed annotation with source positions.
#[derive(Debug, Clone)]
pub struct Annotation {
    pub form: AnnotationForm,
    /// Optional `[id]` placed immediately after the opening delimiter
    pub id: Option<String>,
    /// The mark code, when the type slot holds a philological mark
    pub mark: Option<String>,
    pub annotation_type: AnnotationType,
    pub certainty: Certainty,
    pub scope: Scope,
    pub body: Option<String>,
    pub date: Option<String>,
    /// UTF-16 offset of the opening `<` of the comment
    pub char_start: usize,
    /// UTF-16 offset one past the closing `>` of the comment
    pub char_end: usize,
    /// The original raw source text of the entire comment
    pub original: String,
}

/// The mathematical value of an [`Annotation`].
pub struct AnnotationView {
    pub form: AnnotationForm,
    pub id: Option<Seq<char>>,
    pub mark: Option<Seq<char>>,
    pub annotation_type: AnnotationType,
    pub certainty: Certainty,
    pub scope: ScopeView,
    pub body: Option<Seq<char>>,
    pub date: Option<Seq<char>>,
    pub char_start: nat,
    pub char_end: nat,
    pub original: Seq<char>,
}

pub open spec fn opt_str(o: Option<String>) -> Option<Seq<char>> {
    match o {
        Some(s) => Some(s@),
        None => None,
    }
}

impl View for Annotation {
    type V = AnnotationView;

    open spec fn view(&self) -> AnnotationView {
        AnnotationView {
            form: self.form,
            id: opt_str(self.id),
            mark: opt_str(self.mark),
            annotation_type: self.annotation_type,
            certainty: self.certainty,
            scope: self.scope@,
            body: opt_str(self.body),
            date: opt_str(self.date),
            char_start: self.char_start as nat,
            char_end: self.char_end as nat,
            original: self.original@,
        }
    }
}

/// `count` copies of `c`.
pub open spec fn repeat(c: char, count: nat) -> Seq<char> {
    Seq::new(count, |i: int| c)
}

/// Letter repetition and underscore suffix are two spellings of the same
/// count: `\pp` and `\p__` are both two paragraphs (likewise for `\f` pages
/// and `\s` sentences), and `\p` equals `\p_`.
pub proof fn law_letter_repeat_equals_underscores(letter: char, n: nat)
    requires
        letter == 'p' || letter == 'f' || letter == 's',
        n >= 1,
    ensures
        parse_scope(seq!['\\', letter] + repeat(letter, (n - 1) as nat)) == parse_scope(
            seq!['\\', letter] + repeat('_', n),
        ),
        parse_scope(seq!['\\', letter] + repeat('_', n)) is Some,
{
    let a = seq!['\\', letter] + repeat(letter, (n - 1) as nat);
    let b = seq!['\\', letter] + repeat('_', n);
    assert(a.skip(2) =~= repeat(letter, (n - 1) as nat));
    assert(b.skip(2) =~= repeat('_', n));
    assert(!all_eq(repeat('_', n), letter)) by {
        assert(repeat('_', n)[0] == '_');
    }
    assert(a[0] == '\\' && a[1] == letter);
    assert(b[0] == '\\' && b[1] == letter);
}

/// A run of `n` underscores is `n` words.
pub proof fn law_underscores_are_words(n: nat)
    requires
        1 <= n <= 255,
    ensures
        parse_scope(repeat('_', n)) == Some(ScopeView::Words(n as u8)),
{
    assert(repeat('_', n)[0] == '_');
}

} // verus!
