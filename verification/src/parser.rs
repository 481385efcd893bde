use vstd::prelude::*;
use vstd::string::StrSliceExecFns;

verus! {

// ---------------------------------------------------------------------------
// Whitespace and trimming
// ---------------------------------------------------------------------------

/// Characters stripped from the ends of each statement.
pub open spec fn is_space(c: char) -> bool {
    c == ' ' || c == '\t' || c == '\n' || c == '\r' || c == '\u{b}' || c == '\u{c}'
}

pub open spec fn trim_left(s: Seq<char>) -> Seq<char>
    decreases s.len(),
{
    if s.len() > 0 && is_space(s[0]) {
        trim_left(s.drop_first())
    } else {
        s
    }
}

pub open spec fn trim_right(s: Seq<char>) -> Seq<char>
    decreases s.len(),
{
    if s.len() > 0 && is_space(s.last()) {
        trim_right(s.drop_last())
    } else {
        s
    }
}

/// A statement is reported with leading and trailing whitespace removed.
pub open spec fn trim(s: Seq<char>) -> Seq<char> {
    trim_right(trim_left(s))
}

proof fn lemma_trim_left_range(s: Seq<char>, a: int)
    requires
        0 <= a <= s.len(),
        forall|k: int| 0 <= k < a ==> is_space(s[k]),
        a == s.len() || !is_space(s[a]),
    ensures
        trim_left(s) == s.subrange(a, s.len() as int),
    decreases a,
{
    if a == 0 {
        assert(s.subrange(0, s.len() as int) =~= s);
    } else {
        lemma_trim_left_range(s.drop_first(), a - 1);
        assert(s.drop_first().subrange(a - 1, s.drop_first().len() as int) =~= s.subrange(
            a,
            s.len() as int,
        ));
    }
}

proof fn lemma_trim_right_range(s: Seq<char>, b: int)
    requires
        0 <= b <= s.len(),
        forall|k: int| b <= k < s.len() ==> is_space(s[k]),
        b == 0 || !is_space(s[b - 1]),
    ensures
        trim_right(s) == s.subrange(0, b),
    decreases s.len() - b,
{
    if b == s.len() {
        assert(s.subrange(0, s.len() as int) =~= s);
    } else {
        lemma_trim_right_range(s.drop_last(), b);
        assert(s.drop_last().subrange(0, b) =~= s.subrange(0, b));
    }
}

fn is_space_char(c: char) -> (r: bool)
    ensures
        r == is_space(c),
{
    c == ' ' || c == '\t' || c == '\n' || c == '\r' || c == '\u{b}' || c == '\u{c}'
}

/// Narrows the range `[lo, hi)` of `s` to the bounds of its trimmed content.
fn trim_bounds(s: &str, lo: usize, hi: usize) -> (r: (usize, usize))
    requires
        lo <= hi <= s@.len(),
    ensures
        lo <= r.0 <= r.1 <= hi,
        s@.subrange(r.0 as int, r.1 as int) == trim(s@.subrange(lo as int, hi as int)),
{
    let ghost seg = s@.subrange(lo as int, hi as int);
    let mut a = lo;
    while a < hi && is_space_char(s.get_char(a))
        invariant
            lo <= a <= hi <= s@.len(),
            seg == s@.subrange(lo as int, hi as int),
            forall|k: int| lo <= k < a ==> is_space(s@[k]),
        decreases hi - a,
    {
        a = a + 1;
    }
    proof {
        lemma_trim_left_range(seg, a - lo);
        assert(seg.subrange(a - lo, seg.len() as int) =~= s@.subrange(a as int, hi as int));
    }
    let ghost tl = s@.subrange(a as int, hi as int);
    let mut b = hi;
    while b > a && is_space_char(s.get_char(b - 1))
        invariant
            lo <= a <= b <= hi <= s@.len(),
            tl == s@.subrange(a as int, hi as int),
            forall|k: int| b <= k < hi ==> is_space(s@[k]),
        decreases b,
    {
        b = b - 1;
    }
    proof {
        lemma_trim_right_range(tl, b - a);
        assert(tl.subrange(0, b - a) =~= s@.subrange(a as int, b as int));
    }
    (a, b)
}

// ---------------------------------------------------------------------------
// The lexical scanner
// ---------------------------------------------------------------------------

/// Lexical mode of the scanner after some prefix of the script has been read.
/// `TagOpen` collects the characters of a dollar-quote tag, `DollarQuote`
/// is an open dollar-quoted region, and `TagClose` collects a candidate
/// closing tag. `NormalSlash`, `CommentSlash` and `CommentStar` remember a
/// just-seen `/` or `*` so that `/*` and `*/` act as two-character markers.
pub enum LexMode {
    Normal,
    NormalSlash,
    SingleQuote,
    DoubleQuote,
    Comment,
    CommentSlash,
    CommentStar,
    TagOpen { tag: Seq<char> },
    DollarQuote { tag: Seq<char> },
    TagClose { tag: Seq<char>, end_tag: Seq<char> },
}

/// One step of the scanner: the mode after reading character `c` in mode `m`.
pub open spec fn step_mode(m: LexMode, c: char) -> LexMode {
    match m {
        LexMode::Normal | LexMode::NormalSlash => {
            if c == '$' {
                LexMode::TagOpen { tag: Seq::empty() }
            } else if c == '\'' {
                LexMode::SingleQuote
            } else if c == '"' {
                LexMode::DoubleQuote
            } else if c == '*' && m is NormalSlash {
                LexMode::Comment
            } else if c == '/' {
                LexMode::NormalSlash
            } else {
                LexMode::Normal
            }
        },
        LexMode::SingleQuote => {
            if c == '\'' {
                LexMode::Normal
            } else {
                LexMode::SingleQuote
            }
        },
        LexMode::DoubleQuote => {
            if c == '"' {
                LexMode::Normal
            } else {
                LexMode::DoubleQuote
            }
        },
        LexMode::Comment => {
            if c == '/' {
                LexMode::CommentSlash
            } else if c == '*' {
                LexMode::CommentStar
            } else {
                LexMode::Comment
            }
        },
        LexMode::CommentSlash => {
            if c == '*' {
                LexMode::Comment
            } else if c == '/' {
                LexMode::CommentSlash
            } else {
                LexMode::Comment
            }
        },
        LexMode::CommentStar => {
            if c == '/' {
                LexMode::Normal
            } else if c == '*' {
                LexMode::CommentStar
            } else {
                LexMode::Comment
            }
        },
        LexMode::TagOpen { tag } => {
            if c == '$' {
                LexMode::DollarQuote { tag }
            } else {
                LexMode::TagOpen { tag: tag.push(c) }
            }
        },
        LexMode::DollarQuote { tag } => {
            if c == '$' {
                LexMode::TagClose { tag, end_tag: Seq::empty() }
            } else {
                LexMode::DollarQuote { tag }
            }
        },
        LexMode::TagClose { tag, end_tag } => {
            if c == '$' {
                if end_tag == tag {
                    LexMode::Normal
                } else {
                    LexMode::DollarQuote { tag }
                }
            } else {
                LexMode::TagClose { tag, end_tag: end_tag.push(c) }
            }
        },
    }
}

/// A semicolon read in these modes ends the current statement; in every
/// other mode it is an ordinary character.
pub open spec fn mode_splits(m: LexMode) -> bool {
    m is Normal || m is NormalSlash
}

/// The scanner over `s` from position `i`, where `seg` is the start of the
/// current statement and `out` holds the statements already emitted.
/// Yields the complete statement sequence of the script.
pub open spec fn scan(s: Seq<char>, i: int, m: LexMode, seg: int, out: Seq<Seq<char>>) -> Seq<
    Seq<char>,
>
    decreases s.len() - i,
{
    if i < 0 || i >= s.len() {
        let tail = trim(s.subrange(seg, s.len() as int));
        if tail.len() > 0 {
            out.push(tail)
        } else {
            out
        }
    } else {
        let c = s[i];
        if c == ';' && mode_splits(m) {
            scan(s, i + 1, LexMode::Normal, i + 1, out.push(trim(s.subrange(seg, i))))
        } else {
            scan(s, i + 1, step_mode(m, c), seg, out)
        }
    }
}

/// The statements of a script: the text between top-level semicolons,
/// trimmed, where semicolons inside single quotes, double quotes, block
/// comments and dollar-quoted regions do not count, and a non-blank
/// remainder after the last semicolon is a statement of its own.
pub open spec fn split_statements(s: Seq<char>) -> Seq<Seq<char>> {
    scan(s, 0, LexMode::Normal, 0, Seq::empty())
}

pub open spec fn seq_views(ss: Seq<String>) -> Seq<Seq<char>> {
    ss.map_values(|s: String| s@)
}

// ---------------------------------------------------------------------------
// Executable splitter
// ---------------------------------------------------------------------------

/// Executable counterpart of `LexMode`: a dollar-quote tag is kept as a
/// character range of the input rather than as an owned string.
enum ScanMode {
    Normal,
    NormalSlash,
    SingleQuote,
    DoubleQuote,
    Comment,
    CommentSlash,
    CommentStar,
    TagOpen { from: usize },
    DollarQuote { from: usize, to: usize },
    TagClose { from: usize, to: usize, end_from: usize },
}

spec fn mode_wf(m: ScanMode, i: int) -> bool {
    match m {
        ScanMode::TagOpen { from } => from <= i,
        ScanMode::DollarQuote { from, to } => from <= to <= i,
        ScanMode::TagClose { from, to, end_from } => from <= to <= i && end_from <= i,
        _ => true,
    }
}

spec fn mode_view(m: ScanMode, s: Seq<char>, i: int) -> LexMode {
    match m {
        ScanMode::Normal => LexMode::Normal,
        ScanMode::NormalSlash => LexMode::NormalSlash,
        ScanMode::SingleQuote => LexMode::SingleQuote,
        ScanMode::DoubleQuote => LexMode::DoubleQuote,
        ScanMode::Comment => LexMode::Comment,
        ScanMode::CommentSlash => LexMode::CommentSlash,
        ScanMode::CommentStar => LexMode::CommentStar,
        ScanMode::TagOpen { from } => LexMode::TagOpen { tag: s.subrange(from as int, i) },
        ScanMode::DollarQuote { from, to } => LexMode::DollarQuote {
            tag: s.subrange(from as int, to as int),
        },
        ScanMode::TagClose { from, to, end_from } => LexMode::TagClose {
            tag: s.subrange(from as int, to as int),
            end_tag: s.subrange(end_from as int, i),
        },
    }
}

/// Whether two character ranges of `s` hold the same text.
fn ranges_equal(s: &str, a1: usize, b1: usize, a2: usize, b2: usize) -> (r: bool)
    requires
        a1 <= b1 <= s@.len(),
        a2 <= b2 <= s@.len(),
    ensures
        r == (s@.subrange(a1 as int, b1 as int) == s@.subrange(a2 as int, b2 as int)),
{
    if b1 - a1 != b2 - a2 {
        proof {
            assert(s@.subrange(a1 as int, b1 as int).len() != s@.subrange(
                a2 as int,
                b2 as int,
            ).len());
        }
        return false;
    }
    let len = b1 - a1;
    let mut k: usize = 0;
    while k < len
        invariant
            a1 + len == b1 <= s@.len(),
            a2 + len == b2 <= s@.len(),
            k <= len,
            forall|j: int| 0 <= j < k ==> s@[a1 + j] == #[trigger] s@[a2 + j],
        decreases len - k,
    {
        if s.get_char(a1 + k) != s.get_char(a2 + k) {
            proof {
                assert(s@.subrange(a1 as int, b1 as int)[k as int] != s@.subrange(
                    a2 as int,
                    b2 as int,
                )[k as int]);
            }
            return false;
        }
        k = k + 1;
    }
    proof {
        assert forall|j: int| 0 <= j < b1 - a1 implies s@.subrange(a1 as int, b1 as int)[j] == s@.subrange(
            a2 as int,
            b2 as int,
        )[j] by {
            assert(s@[a1 + j] == s@[a2 + j]);
        }
        assert(s@.subrange(a1 as int, b1 as int) =~= s@.subrange(a2 as int, b2 as int));
    }
    true
}

/// Splits a SQL script into its individual statements.
///
/// A `;` outside single quotes, double quotes, block comments and
/// dollar-quoted regions ends a statement; the statement is reported with
/// surrounding whitespace removed and without the terminating semicolon.
/// Text after the last semicolon forms a final statement when it is not
/// blank. An unterminated quote, comment or dollar-quoted region is not an
/// error: the rest of the script is absorbed into the final statement.
pub fn parse_text(input: &str) -> (r: Vec<String>)
    ensures
        seq_views(r@) == split_statements(input@),
{
    let n = input.unicode_len();
    let mut out: Vec<String> = Vec::new();
    let mut mode = ScanMode::Normal;
    let mut seg: usize = 0;
    let mut i: usize = 0;
    proof {
        assert(seq_views(out@) =~= Seq::<Seq<char>>::empty());
    }
    while i < n
        invariant
            n == input@.len(),
            seg <= i <= n,
            mode_wf(mode, i as int),
            scan(input@, i as int, mode_view(mode, input@, i as int), seg as int, seq_views(out@))
                == split_statements(input@),
        decreases n - i,
    {
        let ghost prev_mode = mode_view(mode, input@, i as int);
        let ghost prev_out = seq_views(out@);
        let ghost prev_seg = seg as int;
        let c = input.get_char(i);
        let splitting = match mode {
            ScanMode::Normal | ScanMode::NormalSlash => c == ';',
            _ => false,
        };
        if splitting {
            let (a, b) = trim_bounds(input, seg, i);
            let stmt = input.substring_char(a, b).to_owned();
            out.push(stmt);
            mode = ScanMode::Normal;
            seg = i + 1;
            proof {
                assert(seq_views(out@) =~= prev_out.push(
                    trim(input@.subrange(prev_seg, i as int)),
                ));
                assert(scan(input@, i as int, prev_mode, prev_seg, prev_out) == scan(
                    input@,
                    i + 1,
                    LexMode::Normal,
                    i + 1,
                    seq_views(out@),
                ));
            }
        } else {
            mode = match mode {
                ScanMode::Normal | ScanMode::NormalSlash => {
                    if c == '$' {
                        ScanMode::TagOpen { from: i + 1 }
                    } else if c == '\'' {
                        ScanMode::SingleQuote
                    } else if c == '"' {
                        ScanMode::DoubleQuote
                    } else if c == '*' && matches!(mode, ScanMode::NormalSlash) {
                        ScanMode::Comment
                    } else if c == '/' {
                        ScanMode::NormalSlash
                    } else {
                        ScanMode::Normal
                    }
                },
                ScanMode::SingleQuote => {
                    if c == '\'' {
                        ScanMode::Normal
                    } else {
                        ScanMode::SingleQuote
                    }
                },
                ScanMode::DoubleQuote => {
                    if c == '"' {
                        ScanMode::Normal
                    } else {
                        ScanMode::DoubleQuote
                    }
                },
                ScanMode::Comment => {
                    if c == '/' {
                        ScanMode::CommentSlash
                    } else if c == '*' {
                        ScanMode::CommentStar
                    } else {
                        ScanMode::Comment
                    }
                },
                ScanMode::CommentSlash => {
                    if c == '*' {
                        ScanMode::Comment
                    } else if c == '/' {
                        ScanMode::CommentSlash
                    } else {
                        ScanMode::Comment
                    }
                },
                ScanMode::CommentStar => {
                    if c == '/' {
                        ScanMode::Normal
                    } else if c == '*' {
                        ScanMode::CommentStar
                    } else {
                        ScanMode::Comment
                    }
                },
                ScanMode::TagOpen { from } => {
                    if c == '$' {
                        ScanMode::DollarQuote { from, to: i }
                    } else {
                        ScanMode::TagOpen { from }
                    }
                },
                ScanMode::DollarQuote { from, to } => {
                    if c == '$' {
                        ScanMode::TagClose { from, to, end_from: i + 1 }
                    } else {
                        ScanMode::DollarQuote { from, to }
                    }
                },
                ScanMode::TagClose { from, to, end_from } => {
                    if c == '$' {
                        if ranges_equal(input, end_from, i, from, to) {
                            ScanMode::Normal
                        } else {
                            ScanMode::DollarQuote { from, to }
                        }
                    } else {
                        ScanMode::TagClose { from, to, end_from }
                    }
                },
            };
            proof {
                assert(mode_view(mode, input@, i + 1) == step_mode(prev_mode, input@[i as int]))
                    by {
                    match prev_mode {
                        LexMode::TagOpen { tag } => {
                            if input@[i as int] != '$' {
                                assert(input@.subrange(
                                    (i + 1 - tag.len() - 1) as int,
                                    i + 1,
                                ) =~= tag.push(input@[i as int]));
                            }
                        },
                        LexMode::TagClose { tag, end_tag } => {
                            if input@[i as int] != '$' {
                                assert(mode matches ScanMode::TagClose { end_from, .. }
                                    && input@.subrange(end_from as int, i + 1) =~= end_tag.push(
                                    input@[i as int],
                                ));
                            }
                        },
                        LexMode::DollarQuote { tag } => {
                            if input@[i as int] == '$' {
                                assert(mode matches ScanMode::TagClose { end_from, .. }
                                    && input@.subrange(end_from as int, i + 1)
                                    =~= Seq::<char>::empty());
                            }
                        },
                        LexMode::Normal | LexMode::NormalSlash => {
                            if input@[i as int] == '$' {
                                assert(mode matches ScanMode::TagOpen { from } && input@.subrange(
                                    from as int,
                                    i + 1,
                                ) =~= Seq::<char>::empty());
                            }
                        },
                        _ => {},
                    }
                }
                assert(scan(input@, i as int, prev_mode, prev_seg, prev_out) == scan(
                    input@,
                    i + 1,
                    mode_view(mode, input@, i + 1),
                    prev_seg,
                    prev_out,
                ));
            }
        }
        i = i + 1;
    }
    let (a, b) = trim_bounds(input, seg, n);
    if a < b {
        let stmt = input.substring_char(a, b).to_owned();
        let ghost prev_out = seq_views(out@);
        out.push(stmt);
        proof {
            assert(seq_views(out@) =~= prev_out.push(trim(input@.subrange(seg as int, n as int))));
        }
    }
    out
}

// ---------------------------------------------------------------------------
// SELECT guard
// ---------------------------------------------------------------------------

/// Whether a query begins, after leading whitespace, with the word
/// `SELECT` in any mix of upper and lower case.
pub open spec fn spec_is_select(q: Seq<char>) -> bool {
    let t = trim_left(q);
    t.len() >= 6 && (t[0] == 'S' || t[0] == 's') && (t[1] == 'E' || t[1] == 'e') && (t[2] == 'L'
        || t[2] == 'l') && (t[3] == 'E' || t[3] == 'e') && (t[4] == 'C' || t[4] == 'c') && (t[5]
        == 'T' || t[5] == 't')
}

/// Guard used before a read-only query is issued: only statements that
/// start with `SELECT` pass.
pub fn is_select_query(query: &str) -> (r: bool)
    ensures
        r == spec_is_select(query@),
{
    let n = query.unicode_len();
    let mut a: usize = 0;
    while a < n && is_space_char(query.get_char(a))
        invariant
            n == query@.len(),
            a <= n,
            forall|k: int| 0 <= k < a ==> is_space(query@[k]),
        decreases n - a,
    {
        a = a + 1;
    }
    proof {
        lemma_trim_left_range(query@, a as int);
    }
    if n - a < 6 {
        return false;
    }
    let c0 = query.get_char(a);
    let c1 = query.get_char(a + 1);
    let c2 = query.get_char(a + 2);
    let c3 = query.get_char(a + 3);
    let c4 = query.get_char(a + 4);
    let c5 = query.get_char(a + 5);
    (c0 == 'S' || c0 == 's') && (c1 == 'E' || c1 == 'e') && (c2 == 'L' || c2 == 'l') && (c3 == 'E'
        || c3 == 'e') && (c4 == 'C' || c4 == 'c') && (c5 == 'T' || c5 == 't')
}

} // verus!
