//! Command-line argument rules of the `otsify` tool: word classification,
//! option folding, path handling and the default output name. The one fact
//! the library cannot establish itself — whether the input path names an
//! existing file — is handed in as a boolean by the caller.

use vstd::prelude::*;
use vstd::string::StrSliceExecFns;
use vstd::string::StringExecFns;

verus! {

/// One command-line option.
#[derive(Debug, Clone, Copy, PartialEq, Eq, Structural)]
pub enum Flag {
    I,
    Q,
    H,
}

/// One command-line word: an option or a file path.
#[derive(Debug)]
pub enum Token {
    Flag(Flag),
    Path(String),
}

/// Everything that can be wrong with a command line; carried values name
/// the offending input.
#[derive(Debug, PartialEq, Eq)]
pub enum CliError {
    /// A lone "-" argument.
    DanglingDash,
    /// "-c" with an unknown option character.
    UnknownShortFlag(char),
    /// A long argument that does not begin with "--".
    LongFlagPrefix,
    /// "--word" with an unknown word.
    UnknownLongFlag(String),
    /// No input file path was given.
    MissingInput,
    /// The input path does not name an existing file.
    InfileMissing(String),
    /// An option appeared after the file paths.
    FlagAfterFile,
    /// More than two file paths.
    TooManyArgs,
    /// The output path does not end in ".png".
    BadOutfileExt,
}

/// The parsed arguments of one run.
#[derive(Debug)]
pub struct Args {
    pub infile: String,
    pub oufile: String,
    pub h_flag: bool,
    pub i_flag: bool,
    pub q_flag: bool,
    pub is_dft: bool,
}

impl Default for Args {
    fn default() -> (a: Args)
        ensures
            a.infile@.len() == 0,
            a.oufile@.len() == 0,
            !a.h_flag,
            !a.i_flag,
            !a.q_flag,
            !a.is_dft,
    {
        Args {
            infile: String::new(),
            oufile: String::new(),
            h_flag: false,
            i_flag: false,
            q_flag: false,
            is_dft: false,
        }
    }
}

impl Args {
    /// Folds one option into the flags.
    pub fn eke_flag(&mut self, f: Flag)
        ensures
            final(self).infile == old(self).infile,
            final(self).oufile == old(self).oufile,
            final(self).is_dft == old(self).is_dft,
            final(self).i_flag == (old(self).i_flag || f == Flag::I),
            final(self).q_flag == (old(self).q_flag || f == Flag::Q),
            final(self).h_flag == (old(self).h_flag || f == Flag::H),
    {
        match f {
            Flag::I => self.i_flag = true,
            Flag::Q => self.q_flag = true,
            Flag::H => self.h_flag = true,
        }
    }

    /// Records the input file path. The caller reports whether the path
    /// names an existing file; a missing file is rejected.
    pub fn set_infile(&mut self, p: &str, exists: bool) -> (r: Result<(), CliError>)
        ensures
            exists ==> r is Ok && final(self).infile@ == p@ && final(self).oufile == old(
                self,
            ).oufile && final(self).h_flag == old(self).h_flag && final(self).i_flag == old(
                self,
            ).i_flag && final(self).q_flag == old(self).q_flag && final(self).is_dft == old(
                self,
            ).is_dft,
            !exists ==> (r matches Err(e) && (e matches CliError::InfileMissing(q) && q@ == p@))
                && *final(self) == *old(self),
    {
        if exists {
            self.infile = p.to_owned();
            Ok(())
        } else {
            Err(CliError::InfileMissing(p.to_owned()))
        }
    }
}

impl Flag {
    /// Reads a single option character.
    pub fn try_from(c: char) -> (r: Result<Flag, CliError>)
        ensures
            c == 'i' ==> r == Ok::<Flag, CliError>(Flag::I),
            c == 'q' ==> r == Ok::<Flag, CliError>(Flag::Q),
            c == 'h' ==> r == Ok::<Flag, CliError>(Flag::H),
            c != 'i' && c != 'q' && c != 'h' ==> r == Err::<Flag, CliError>(
                CliError::UnknownShortFlag(c),
            ),
    {
        match c {
            'i' => Ok(Flag::I),
            'q' => Ok(Flag::Q),
            'h' => Ok(Flag::H),
            _ => Err(CliError::UnknownShortFlag(c)),
        }
    }
}

/// Compares two strings character by character.
fn str_eq(a: &str, b: &str) -> (r: bool)
    ensures
        r == (a@ == b@),
{
    let la = a.unicode_len();
    let lb = b.unicode_len();
    if la != lb {
        return false;
    }
    let mut i: usize = 0;
    while i < la
        invariant
            la == a@.len(),
            la == b@.len(),
            i <= la,
            forall|j: int| 0 <= j < i ==> a@[j] == b@[j],
        decreases la - i,
    {
        if a.get_char(i) != b.get_char(i) {
            return false;
        }
        i += 1;
    }
    proof {
        assert(a@ =~= b@);
    }
    true
}

/// Reads a long option; the word is known to start with '-' and to hold at
/// least three characters.
pub fn tok_long_flag(arg: &str) -> (r: Result<Flag, CliError>)
    requires
        arg@.len() > 2,
        arg@[0] == '-',
    ensures
        arg@[1] != '-' ==> r == Err::<Flag, CliError>(CliError::LongFlagPrefix),
        arg@[1] == '-' && arg@.skip(2) == "quiet"@ ==> r == Ok::<Flag, CliError>(Flag::Q),
        arg@[1] == '-' && arg@.skip(2) == "help"@ ==> r == Ok::<Flag, CliError>(Flag::H),
        arg@[1] == '-' && arg@.skip(2) != "quiet"@ && arg@.skip(2) != "help"@ ==> (r matches Err(
            e,
        ) && (e matches CliError::UnknownLongFlag(s) && s@ == arg@)),
{
    if arg.get_char(1) != '-' {
        return Err(CliError::LongFlagPrefix);
    }
    let len = arg.unicode_len();
    let rest = arg.substring_char(2, len);
    proof {
        assert(rest@ =~= arg@.skip(2));
        reveal_strlit("quiet");
        reveal_strlit("help");
    }
    if str_eq(rest, "quiet") {
        Ok(Flag::Q)
    } else if str_eq(rest, "help") {
        Ok(Flag::H)
    } else {
        Err(CliError::UnknownLongFlag(arg.to_owned()))
    }
}

/// Classifies one command-line word: words starting with '-' are options,
/// anything else is a file path. Process argument lists deliver non-empty
/// words, and empty ones are left out by contract.
pub fn tokenize(arg: &str) -> (r: Result<Token, CliError>)
    requires
        arg@.len() > 0,
    ensures
        arg@[0] != '-' ==> (r matches Ok(t) && (t matches Token::Path(p) && p@ == arg@)),
        arg@[0] == '-' && arg@.len() == 1 ==> r == Err::<Token, CliError>(CliError::DanglingDash),
        arg@[0] == '-' && arg@.len() == 2 ==> {
            &&& arg@[1] == 'i' ==> r == Ok::<Token, CliError>(Token::Flag(Flag::I))
            &&& arg@[1] == 'q' ==> r == Ok::<Token, CliError>(Token::Flag(Flag::Q))
            &&& arg@[1] == 'h' ==> r == Ok::<Token, CliError>(Token::Flag(Flag::H))
            &&& (arg@[1] != 'i' && arg@[1] != 'q' && arg@[1] != 'h') ==> r == Err::<
                Token,
                CliError,
            >(CliError::UnknownShortFlag(arg@[1]))
        },
        arg@[0] == '-' && arg@.len() > 2 ==> {
            &&& arg@[1] != '-' ==> r == Err::<Token, CliError>(CliError::LongFlagPrefix)
            &&& arg@[1] == '-' && arg@.skip(2) == "quiet"@ ==> r == Ok::<Token, CliError>(
                Token::Flag(Flag::Q),
            )
            &&& arg@[1] == '-' && arg@.skip(2) == "help"@ ==> r == Ok::<Token, CliError>(
                Token::Flag(Flag::H),
            )
            &&& (arg@[1] == '-' && arg@.skip(2) != "quiet"@ && arg@.skip(2) != "help"@) ==> (
            r matches Err(e) && (e matches CliError::UnknownLongFlag(s) && s@ == arg@))
        },
{
    if arg.get_char(0) == '-' {
        let len = arg.unicode_len();
        if len == 1 {
            Err(CliError::DanglingDash)
        } else if len == 2 {
            match Flag::try_from(arg.get_char(1)) {
                Ok(f) => Ok(Token::Flag(f)),
                Err(e) => Err(e),
            }
        } else {
            match tok_long_flag(arg) {
                Ok(f) => Ok(Token::Flag(f)),
                Err(e) => Err(e),
            }
        }
    } else {
        Ok(Token::Path(arg.to_owned()))
    }
}

/// Where the extension dot of a file name sits: the position of the dot
/// nearest the end among the final five characters, if the name is at
/// least five characters long; otherwise (or with no such dot) the whole
/// name is kept.
pub open spec fn ext_cut(s: Seq<char>) -> int {
    if s.len() >= 5 {
        if s[s.len() - 1] == '.' {
            s.len() - 1
        } else if s[s.len() - 2] == '.' {
            s.len() - 2
        } else if s[s.len() - 3] == '.' {
            s.len() - 3
        } else if s[s.len() - 4] == '.' {
            s.len() - 4
        } else if s[s.len() - 5] == '.' {
            s.len() - 5
        } else {
            s.len() as int
        }
    } else {
        s.len() as int
    }
}

/// The default output name: the input name, any short trailing extension
/// stripped, with "_otsu.png" appended.
pub open spec fn default_oufile(s: Seq<char>) -> Seq<char> {
    s.take(ext_cut(s)) + "_otsu.png"@
}

/// Derives the default output file name from the input file name.
pub fn get_default_oufile(ifn: &str) -> (r: String)
    ensures
        r@ == default_oufile(ifn@),
{
    let len = ifn.unicode_len();
    let mut cut: usize = len;
    if len >= 5 {
        if ifn.get_char(len - 1) == '.' {
            cut = len - 1;
        } else if ifn.get_char(len - 2) == '.' {
            cut = len - 2;
        } else if ifn.get_char(len - 3) == '.' {
            cut = len - 3;
        } else if ifn.get_char(len - 4) == '.' {
            cut = len - 4;
        } else if ifn.get_char(len - 5) == '.' {
            cut = len - 5;
        }
    }
    let mut res = ifn.substring_char(0, cut).to_owned();
    res.append("_otsu.png");
    proof {
        assert(res@ =~= default_oufile(ifn@));
    }
    res
}

/// Length of the leading run of option tokens.
pub open spec fn flag_prefix_len(ts: Seq<Token>) -> int
    decreases ts.len(),
{
    if ts.len() == 0 || !(ts[0] is Flag) {
        0
    } else {
        1 + flag_prefix_len(ts.drop_first())
    }
}

/// Index of the first help option inside the leading option run, or the
/// run's length when it holds none.
pub open spec fn help_cut(ts: Seq<Token>) -> int
    decreases ts.len(),
{
    if ts.len() == 0 || !(ts[0] is Flag) {
        0
    } else if ts[0] == Token::Flag(Flag::H) {
        0
    } else {
        1 + help_cut(ts.drop_first())
    }
}

/// Whether one of the first `m` tokens is the option `f`.
pub open spec fn has_flag_upto(ts: Seq<Token>, m: int, f: Flag) -> bool {
    exists|j: int| 0 <= j < m && ts[j] == Token::Flag(f)
}

proof fn lemma_prefix_props(ts: Seq<Token>)
    ensures
        0 <= flag_prefix_len(ts) <= ts.len(),
        forall|j: int| 0 <= j < flag_prefix_len(ts) ==> ts[j] is Flag,
        flag_prefix_len(ts) < ts.len() ==> !(ts[flag_prefix_len(ts)] is Flag),
        0 <= help_cut(ts) <= flag_prefix_len(ts),
        forall|j: int| 0 <= j < help_cut(ts) ==> ts[j] != Token::Flag(Flag::H),
        help_cut(ts) < flag_prefix_len(ts) ==> ts[help_cut(ts)] == Token::Flag(Flag::H),
    decreases ts.len(),
{
    if ts.len() > 0 && ts[0] is Flag {
        let dts = ts.drop_first();
        lemma_prefix_props(dts);
        assert forall|j: int| 0 <= j < flag_prefix_len(ts) implies ts[j] is Flag by {
            if j >= 1 {
                assert(dts[j - 1] is Flag);
                assert(ts[j] == dts[j - 1]);
            }
        }
        if flag_prefix_len(ts) < ts.len() {
            assert(ts[flag_prefix_len(ts)] == dts[flag_prefix_len(ts) - 1]);
        }
        if ts[0] != Token::Flag(Flag::H) {
            assert forall|j: int|
                0 <= j < help_cut(ts) implies ts[j] != Token::Flag(Flag::H) by {
                if j >= 1 {
                    assert(dts[j - 1] != Token::Flag(Flag::H));
                    assert(ts[j] == dts[j - 1]);
                }
            }
            if help_cut(ts) < flag_prefix_len(ts) {
                assert(ts[help_cut(ts)] == dts[help_cut(ts) - 1]);
            }
        }
    }
}

proof fn lemma_flag_prefix_ge(ts: Seq<Token>, m: int)
    requires
        0 <= m <= ts.len(),
        forall|j: int| 0 <= j < m ==> ts[j] is Flag,
    ensures
        flag_prefix_len(ts) >= m,
    decreases m,
{
    if m > 0 {
        assert(ts[0] is Flag);
        let dts = ts.drop_first();
        assert forall|j: int| 0 <= j < m - 1 implies dts[j] is Flag by {
            assert(dts[j] == ts[j + 1]);
        }
        lemma_flag_prefix_ge(dts, m - 1);
    } else {
        lemma_prefix_props(ts);
    }
}

proof fn lemma_help_cut_ge(ts: Seq<Token>, m: int)
    requires
        0 <= m <= ts.len(),
        forall|j: int| 0 <= j < m ==> ts[j] is Flag && ts[j] != Token::Flag(Flag::H),
    ensures
        help_cut(ts) >= m,
    decreases m,
{
    if m > 0 {
        assert(ts[0] is Flag && ts[0] != Token::Flag(Flag::H));
        let dts = ts.drop_first();
        assert forall|j: int|
            0 <= j < m - 1 implies dts[j] is Flag && dts[j] != Token::Flag(Flag::H) by {
            assert(dts[j] == ts[j + 1]);
        }
        lemma_help_cut_ge(dts, m - 1);
    } else {
        lemma_prefix_props(ts);
    }
}

proof fn lemma_has_flag_step(ts: Seq<Token>, m: int, f: Flag)
    requires
        0 <= m,
    ensures
        has_flag_upto(ts, m + 1, f) == (has_flag_upto(ts, m, f) || ts[m] == Token::Flag(f)),
{
    if has_flag_upto(ts, m + 1, f) {
        let j = choose|j: int| 0 <= j < m + 1 && ts[j] == Token::Flag(f);
        if j < m {
            assert(has_flag_upto(ts, m, f));
        }
    }
    if has_flag_upto(ts, m, f) {
        let j = choose|j: int| 0 <= j < m && ts[j] == Token::Flag(f);
        assert(0 <= j < m + 1 && ts[j] == Token::Flag(f));
    }
    if ts[m] == Token::Flag(f) {
        assert(0 <= m < m + 1 && ts[m] == Token::Flag(f));
    }
}

impl Args {
    /// Parses a token list: leading options (a help option wins over
    /// everything after it), then an input path, then an optional output
    /// path, and nothing more. The caller reports whether the input path
    /// names an existing file.
    pub fn try_from(tokens: &[Token], infile_exists: bool) -> (r: Result<Args, CliError>)
        ensures
            ({
                let ts = tokens@;
                let pl = flag_prefix_len(ts);
                let hc = help_cut(ts);
                &&& (hc < pl ==> (r matches Ok(a) && {
                    &&& a.h_flag
                    &&& a.i_flag == has_flag_upto(ts, hc + 1, Flag::I)
                    &&& a.q_flag == has_flag_upto(ts, hc + 1, Flag::Q)
                    &&& a.infile@.len() == 0
                    &&& a.oufile@.len() == 0
                    &&& !a.is_dft
                }))
                &&& (hc >= pl && pl == ts.len() ==> r == Err::<Args, CliError>(
                    CliError::MissingInput,
                ))
                &&& (hc >= pl && pl < ts.len() && !infile_exists ==> (r matches Err(e) && (
                ts[pl] matches Token::Path(p) && (e matches CliError::InfileMissing(q) && q@
                    == p@))))
                &&& (hc >= pl && pl < ts.len() && infile_exists ==> {
                    &&& (ts.len() == pl + 1 ==> (r matches Ok(a) && {
                        &&& !a.h_flag
                        &&& a.i_flag == has_flag_upto(ts, pl, Flag::I)
                        &&& a.q_flag == has_flag_upto(ts, pl, Flag::Q)
                        &&& (ts[pl] matches Token::Path(p) && a.infile@ == p@)
                        &&& a.oufile@.len() == 0
                        &&& a.is_dft
                    }))
                    &&& (ts.len() >= pl + 2 && ts[pl + 1] is Flag ==> r == Err::<Args, CliError>(
                        CliError::FlagAfterFile,
                    ))
                    &&& (ts.len() > pl + 2 && ts[pl + 1] is Path ==> r == Err::<Args, CliError>(
                        CliError::TooManyArgs,
                    ))
                    &&& (ts.len() == pl + 2 && ts[pl + 1] is Path ==> (r matches Ok(a) && {
                        &&& !a.h_flag
                        &&& a.i_flag == has_flag_upto(ts, pl, Flag::I)
                        &&& a.q_flag == has_flag_upto(ts, pl, Flag::Q)
                        &&& (ts[pl] matches Token::Path(p) && a.infile@ == p@)
                        &&& (ts[pl + 1] matches Token::Path(p2) && a.oufile@ == p2@)
                        &&& !a.is_dft
                    }))
                })
            }),
    {
        let ghost ts = tokens@;
        let mut res = Args::default();
        let n = tokens.len();
        let mut ti: usize = 0;
        loop
            invariant
                n == ts.len(),
                ts == tokens@,
                ti <= n,
                forall|j: int| 0 <= j < ti ==> ts[j] is Flag && ts[j] != Token::Flag(Flag::H),
                !res.h_flag,
                res.i_flag == has_flag_upto(ts, ti as int, Flag::I),
                res.q_flag == has_flag_upto(ts, ti as int, Flag::Q),
                res.infile@.len() == 0,
                res.oufile@.len() == 0,
                !res.is_dft,
            ensures
                ti <= n,
                ti == n || tokens@[ti as int] is Path,
            decreases n - ti,
        {
            if ti < n {
                match &tokens[ti] {
                    Token::Flag(f) => {
                        proof {
                            lemma_has_flag_step(ts, ti as int, Flag::I);
                            lemma_has_flag_step(ts, ti as int, Flag::Q);
                        }
                        res.eke_flag(*f);
                        if res.h_flag {
                            proof {
                                lemma_flag_prefix_ge(ts, ti + 1 as int);
                                lemma_help_cut_ge(ts, ti as int);
                                lemma_prefix_props(ts);
                                // this token is the first help option
                                assert(ts[ti as int] == Token::Flag(Flag::H));
                                assert(help_cut(ts) == ti as int);
                            }
                            return Ok(res);
                        }
                        ti += 1;
                    },
                    Token::Path(_) => {
                        break ;
                    },
                }
            } else {
                break ;
            }
        }
        proof {
            lemma_flag_prefix_ge(ts, ti as int);
            lemma_help_cut_ge(ts, ti as int);
            lemma_prefix_props(ts);
            assert(flag_prefix_len(ts) == ti as int);
        }
        if ti == n {
            return Err(CliError::MissingInput);
        }
        match &tokens[ti] {
            Token::Path(p) => {
                match res.set_infile(p.as_str(), infile_exists) {
                    Ok(_) => (),
                    Err(e) => {
                        return Err(e);
                    },
                }
            },
            Token::Flag(_) => {
                // unreachable: the loop above consumed the whole run of
                // leading options
                proof {
                    assert(false);
                }
            },
        }
        ti += 1;
        if ti < n {
            match &tokens[ti] {
                Token::Path(p2) => {
                    res.oufile = p2.clone();
                },
                Token::Flag(_) => {
                    return Err(CliError::FlagAfterFile);
                },
            }
            ti += 1;
            if ti < n {
                return Err(CliError::TooManyArgs);
            }
            Ok(res)
        } else {
            res.is_dft = true;
            Ok(res)
        }
    }
}

/// Whether `tokenize` accepts this word.
pub open spec fn tok_ok(s: Seq<char>) -> bool {
    if s[0] != '-' {
        true
    } else if s.len() == 1 {
        false
    } else if s.len() == 2 {
        s[1] == 'i' || s[1] == 'q' || s[1] == 'h'
    } else {
        s[1] == '-' && (s.skip(2) == "quiet"@ || s.skip(2) == "help"@)
    }
}

/// The error `tokenize` reports for this word.
pub open spec fn tok_err_matches(s: Seq<char>, e: CliError) -> bool {
    if s[0] != '-' {
        false
    } else if s.len() == 1 {
        e == CliError::DanglingDash
    } else if s.len() == 2 {
        e == CliError::UnknownShortFlag(s[1])
    } else if s[1] != '-' {
        e == CliError::LongFlagPrefix
    } else {
        e matches CliError::UnknownLongFlag(w) && w@ == s
    }
}

/// Index of the first word `tokenize` rejects, or the argument count when
/// it accepts them all.
pub open spec fn first_bad(av: Seq<Seq<char>>) -> int
    decreases av.len(),
{
    if av.len() == 0 || !tok_ok(av[0]) {
        0
    } else {
        1 + first_bad(av.drop_first())
    }
}

/// Whether this word is an option word (it starts with '-').
pub open spec fn argv_is_flagw(s: Seq<char>) -> bool {
    s.len() > 0 && s[0] == '-'
}

/// The option a well-formed option word denotes.
pub open spec fn argv_flag(s: Seq<char>) -> Flag {
    if s.len() == 2 {
        if s[1] == 'i' {
            Flag::I
        } else if s[1] == 'q' {
            Flag::Q
        } else {
            Flag::H
        }
    } else {
        if s.skip(2) == "quiet"@ {
            Flag::Q
        } else {
            Flag::H
        }
    }
}

/// The token a well-formed word turns into.
pub open spec fn token_matches(s: Seq<char>, t: Token) -> bool {
    if argv_is_flagw(s) {
        t == Token::Flag(argv_flag(s))
    } else {
        t matches Token::Path(p) && p@ == s
    }
}

/// Length of the leading run of option words.
pub open spec fn argv_prefix_len(av: Seq<Seq<char>>) -> int
    decreases av.len(),
{
    if av.len() == 0 || !argv_is_flagw(av[0]) {
        0
    } else {
        1 + argv_prefix_len(av.drop_first())
    }
}

/// Index of the first help option among the leading option words, or the
/// run's length when it holds none.
pub open spec fn argv_help_cut(av: Seq<Seq<char>>) -> int
    decreases av.len(),
{
    if av.len() == 0 || !argv_is_flagw(av[0]) {
        0
    } else if argv_flag(av[0]) == Flag::H {
        0
    } else {
        1 + argv_help_cut(av.drop_first())
    }
}

/// Whether one of the first `m` words is the option `f`.
pub open spec fn argv_has_flag(av: Seq<Seq<char>>, m: int, f: Flag) -> bool {
    exists|j: int| 0 <= j < m && argv_is_flagw(av[j]) && argv_flag(av[j]) == f
}

/// The character views of a list of argument words.
pub open spec fn views(args: Seq<String>) -> Seq<Seq<char>> {
    args.map_values(|s: String| s@)
}

proof fn lemma_first_bad_props(av: Seq<Seq<char>>)
    ensures
        0 <= first_bad(av) <= av.len(),
        forall|j: int| 0 <= j < first_bad(av) ==> tok_ok(av[j]),
        first_bad(av) < av.len() ==> !tok_ok(av[first_bad(av)]),
    decreases av.len(),
{
    if av.len() > 0 && tok_ok(av[0]) {
        let dav = av.drop_first();
        lemma_first_bad_props(dav);
        assert forall|j: int| 0 <= j < first_bad(av) implies tok_ok(av[j]) by {
            if j >= 1 {
                assert(tok_ok(dav[j - 1]));
                assert(av[j] == dav[j - 1]);
            }
        }
        if first_bad(av) < av.len() {
            assert(av[first_bad(av)] == dav[first_bad(av) - 1]);
        }
    }
}

proof fn lemma_first_bad_ge(av: Seq<Seq<char>>, m: int)
    requires
        0 <= m <= av.len(),
        forall|j: int| 0 <= j < m ==> tok_ok(av[j]),
    ensures
        first_bad(av) >= m,
    decreases m,
{
    if m > 0 {
        assert(tok_ok(av[0]));
        let dav = av.drop_first();
        assert forall|j: int| 0 <= j < m - 1 implies tok_ok(dav[j]) by {
            assert(dav[j] == av[j + 1]);
        }
        lemma_first_bad_ge(dav, m - 1);
    } else {
        lemma_first_bad_props(av);
    }
}

/// A token list built word by word carries the words' structure: its flag
/// run, help cut and flag occurrences are those of the words.
proof fn lemma_tokens_bridge(av: Seq<Seq<char>>, ts: Seq<Token>)
    requires
        av.len() == ts.len(),
        forall|j: int| 0 <= j < av.len() ==> token_matches(av[j], ts[j]),
    ensures
        flag_prefix_len(ts) == argv_prefix_len(av),
        help_cut(ts) == argv_help_cut(av),
        forall|m: int, f: Flag|
            0 <= m <= av.len() ==> #[trigger] has_flag_upto(ts, m, f) == argv_has_flag(av, m, f),
    decreases av.len(),
{
    if av.len() > 0 {
        let dav = av.drop_first();
        let dts = ts.drop_first();
        assert(token_matches(av[0], ts[0]));
        assert forall|j: int| 0 <= j < dav.len() implies token_matches(dav[j], dts[j]) by {
            assert(dav[j] == av[j + 1]);
            assert(dts[j] == ts[j + 1]);
        }
        lemma_tokens_bridge(dav, dts);
    }
    assert forall|m: int, f: Flag|
        0 <= m <= av.len() implies #[trigger] has_flag_upto(ts, m, f) == argv_has_flag(
        av,
        m,
        f,
    ) by {
        if has_flag_upto(ts, m, f) {
            let j = choose|j: int| 0 <= j < m && ts[j] == Token::Flag(f);
            assert(token_matches(av[j], ts[j]));
            assert(argv_is_flagw(av[j]) && argv_flag(av[j]) == f);
            assert(argv_has_flag(av, m, f));
        }
        if argv_has_flag(av, m, f) {
            let j = choose|j: int|
                0 <= j < m && argv_is_flagw(av[j]) && argv_flag(av[j]) == f;
            assert(token_matches(av[j], ts[j]));
            assert(ts[j] == Token::Flag(f));
            assert(has_flag_upto(ts, m, f));
        }
    }
}

/// Whether the word ends in ".png".
pub open spec fn ends_png(s: Seq<char>) -> bool {
    s.len() >= 4 && s.skip(s.len() - 4) == ".png"@
}

fn check_ends_png(s: &str) -> (r: bool)
    ensures
        r == ends_png(s@),
{
    let l = s.unicode_len();
    if l < 4 {
        return false;
    }
    let tail = s.substring_char(l - 4, l);
    proof {
        assert(tail@ =~= s@.skip(s@.len() - 4));
    }
    str_eq(tail, ".png")
}

/// What one run of the tool is asked to do.
#[derive(Debug)]
pub enum WhatToDo {
    Help,
    Otsu(Args),
}

impl WhatToDo {
    /// Reads the argument words that followed the program name. The caller
    /// reports whether the input path candidate — the first word not
    /// starting with '-' — names an existing file. No words at all asks
    /// for the help screen, as does a help option among the leading
    /// options; otherwise the words are parsed and the output path is
    /// defaulted from the input path when it was left out, and must end in
    /// ".png" when it was not.
    pub fn read_args(args: &[String], infile_exists: bool) -> (r: Result<WhatToDo, CliError>)
        requires
            forall|i: int| 0 <= i < args@.len() ==> args@[i]@.len() > 0,
        ensures
            ({
                let av = views(args@);
                let fb = first_bad(av);
                let pl = argv_prefix_len(av);
                let hc = argv_help_cut(av);
                &&& (av.len() == 0 ==> r == Ok::<WhatToDo, CliError>(WhatToDo::Help))
                &&& (av.len() > 0 && fb < av.len() ==> (r matches Err(e) && tok_err_matches(
                    av[fb],
                    e,
                )))
                &&& (av.len() > 0 && fb == av.len() ==> {
                    &&& (hc < pl ==> r == Ok::<WhatToDo, CliError>(WhatToDo::Help))
                    &&& (hc >= pl && pl == av.len() ==> r == Err::<WhatToDo, CliError>(
                        CliError::MissingInput,
                    ))
                    &&& (hc >= pl && pl < av.len() && !infile_exists ==> (r matches Err(e) && (
                    e matches CliError::InfileMissing(q) && q@ == av[pl])))
                    &&& (hc >= pl && pl < av.len() && infile_exists ==> {
                        &&& (av.len() == pl + 1 ==> (r matches Ok(w) && (
                        w matches WhatToDo::Otsu(a) && {
                            &&& !a.h_flag
                            &&& a.i_flag == argv_has_flag(av, pl, Flag::I)
                            &&& a.q_flag == argv_has_flag(av, pl, Flag::Q)
                            &&& a.infile@ == av[pl]
                            &&& a.is_dft
                            &&& a.oufile@ == default_oufile(av[pl])
                        })))
                        &&& (av.len() >= pl + 2 && argv_is_flagw(av[pl + 1]) ==> r == Err::<
                            WhatToDo,
                            CliError,
                        >(CliError::FlagAfterFile))
                        &&& (av.len() > pl + 2 && !argv_is_flagw(av[pl + 1]) ==> r == Err::<
                            WhatToDo,
                            CliError,
                        >(CliError::TooManyArgs))
                        &&& (av.len() == pl + 2 && !argv_is_flagw(av[pl + 1]) && !ends_png(
                            av[pl + 1],
                        ) ==> r == Err::<WhatToDo, CliError>(CliError::BadOutfileExt))
                        &&& (av.len() == pl + 2 && !argv_is_flagw(av[pl + 1]) && ends_png(
                            av[pl + 1],
                        ) ==> (r matches Ok(w) && (w matches WhatToDo::Otsu(a) && {
                            &&& !a.h_flag
                            &&& a.i_flag == argv_has_flag(av, pl, Flag::I)
                            &&& a.q_flag == argv_has_flag(av, pl, Flag::Q)
                            &&& a.infile@ == av[pl]
                            &&& !a.is_dft
                            &&& a.oufile@ == av[pl + 1]
                        })))
                    })
                })
            }),
    {
        let ghost av = views(args@);
        let n = args.len();
        if n == 0 {
            return Ok(WhatToDo::Help);
        }
        let mut tokens: Vec<Token> = Vec::new();
        let mut i: usize = 0;
        while i < n
            invariant
                n == args@.len(),
                av == views(args@),
                i <= n,
                tokens@.len() == i,
                forall|k: int| 0 <= k < args@.len() ==> args@[k]@.len() > 0,
                forall|j: int| 0 <= j < i ==> tok_ok(av[j]),
                forall|j: int| 0 <= j < i ==> token_matches(av[j], tokens@[j]),
            decreases n - i,
        {
            proof {
                assert(av[i as int] == args@[i as int]@);
            }
            match tokenize(args[i].as_str()) {
                Ok(t) => {
                    tokens.push(t);
                },
                Err(e) => {
                    proof {
                        lemma_first_bad_ge(av, i as int);
                        lemma_first_bad_props(av);
                        assert(!tok_ok(av[i as int]));
                        assert(first_bad(av) == i as int);
                    }
                    return Err(e);
                },
            }
            i += 1;
        }
        proof {
            lemma_first_bad_ge(av, n as int);
            lemma_first_bad_props(av);
            lemma_tokens_bridge(av, tokens@);
            lemma_prefix_props(tokens@);
        }
        let parsed = Args::try_from(tokens.as_slice(), infile_exists);
        let a = match parsed {
            Ok(a) => a,
            Err(e) => {
                proof {
                    let pl = flag_prefix_len(tokens@);
                    if help_cut(tokens@) >= pl && pl < tokens@.len() && !infile_exists {
                        assert(token_matches(av[pl], tokens@[pl]));
                    }
                }
                return Err(e);
            },
        };
        if a.h_flag {
            return Ok(WhatToDo::Help);
        }
        let mut a = a;
        proof {
            let pl = flag_prefix_len(tokens@);
            assert(token_matches(av[pl], tokens@[pl]));
        }
        if a.is_dft {
            a.oufile = get_default_oufile(a.infile.as_str());
            Ok(WhatToDo::Otsu(a))
        } else {
            if !check_ends_png(a.oufile.as_str()) {
                return Err(CliError::BadOutfileExt);
            }
            proof {
                let pl = flag_prefix_len(tokens@);
                assert(token_matches(av[pl + 1], tokens@[pl + 1]));
            }
            Ok(WhatToDo::Otsu(a))
        }
    }
}

} // verus!
