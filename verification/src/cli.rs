//! The command line: parsing arguments into a command.
use vstd::prelude::*;
use crate::error::MdSeekError;
use crate::insights::Severity;
use crate::report::{format_named, severity_text, ReportFormat};
use crate::text::{chars_of, parse_usize, parse_usize_spec, str_eq};

verus! {

broadcast use vstd::string::group_string_axioms;

/// A command of the command line, with its options. Paths are texts.
#[derive(Clone, Debug, PartialEq, Eq)]
pub enum Command {
    Index { root: String, cache: String },
    Search { query: String, root: String, cache: Option<String>, limit: usize, case_sensitive: bool },
    Stats { root: String, cache: Option<String> },
    Links { root: String, cache: Option<String> },
    Backlinks { target: String, root: String, cache: Option<String> },
    Graph { root: String, cache: Option<String> },
    Report { root: String, cache: Option<String>, format: ReportFormat, output: Option<String> },
    SuggestLinks { root: String, cache: Option<String>, limit: usize, min_score: u32 },
    Doctor { root: String, cache: Option<String> },
    Help,
}

pub ghost enum CommandView {
    Index { root: Seq<char>, cache: Seq<char> },
    Search { query: Seq<char>, root: Seq<char>, cache: Option<Seq<char>>, limit: usize, case_sensitive: bool },
    Stats { root: Seq<char>, cache: Option<Seq<char>> },
    Links { root: Seq<char>, cache: Option<Seq<char>> },
    Backlinks { target: Seq<char>, root: Seq<char>, cache: Option<Seq<char>> },
    Graph { root: Seq<char>, cache: Option<Seq<char>> },
    Report { root: Seq<char>, cache: Option<Seq<char>>, format: ReportFormat, output: Option<Seq<char>> },
    SuggestLinks { root: Seq<char>, cache: Option<Seq<char>>, limit: usize, min_score: u32 },
    Doctor { root: Seq<char>, cache: Option<Seq<char>> },
    Help,
}

/// The view of an optional text.
pub open spec fn ov(o: Option<String>) -> Option<Seq<char>> {
    match o {
        Some(s) => Some(s@),
        None => None,
    }
}

impl View for Command {
    type V = CommandView;

    open spec fn view(&self) -> CommandView {
        match self {
            Command::Index { root, cache } => CommandView::Index { root: root@, cache: cache@ },
            Command::Search { query, root, cache, limit, case_sensitive } => CommandView::Search {
                query: query@,
                root: root@,
                cache: ov(*cache),
                limit: *limit,
                case_sensitive: *case_sensitive,
            },
            Command::Stats { root, cache } => CommandView::Stats { root: root@, cache: ov(*cache) },
            Command::Links { root, cache } => CommandView::Links { root: root@, cache: ov(*cache) },
            Command::Backlinks { target, root, cache } => CommandView::Backlinks {
                target: target@,
                root: root@,
                cache: ov(*cache),
            },
            Command::Graph { root, cache } => CommandView::Graph { root: root@, cache: ov(*cache) },
            Command::Report { root, cache, format, output } => CommandView::Report {
                root: root@,
                cache: ov(*cache),
                format: *format,
                output: ov(*output),
            },
            Command::SuggestLinks { root, cache, limit, min_score } => CommandView::SuggestLinks {
                root: root@,
                cache: ov(*cache),
                limit: *limit,
                min_score: *min_score,
            },
            Command::Doctor { root, cache } => CommandView::Doctor { root: root@, cache: ov(*cache) },
            Command::Help => CommandView::Help,
        }
    }
}

/// The arguments still to read and the position of the next positional one.
pub ghost struct ArgState {
    pub args: Seq<Seq<char>>,
    pub index: int,
}

/// Whether an argument looks like an option (starts with `--`).
pub open spec fn is_option(s: Seq<char>) -> bool {
    s.len() >= 2 && s[0] == '-' && s[1] == '-'
}

/// The first position at or after `p` that holds `flag`.
pub open spec fn flag_from(args: Seq<Seq<char>>, flag: Seq<char>, p: int) -> Option<int>
    decreases args.len() - p,
{
    if p < 0 || p >= args.len() {
        None
    } else if args[p] == flag {
        Some(p)
    } else {
        flag_from(args, flag, p + 1)
    }
}

/// The next positional argument, which must not look like an option.
pub open spec fn next_string_spec(st: ArgState, name: Seq<char>) -> Result<(Seq<char>, ArgState), Seq<char>> {
    if st.index < 0 || st.index >= st.args.len() || is_option(st.args[st.index]) {
        Err("missing "@ + name)
    } else {
        Ok((st.args[st.index], ArgState { args: st.args, index: st.index + 1 }))
    }
}

/// The value of an option `flag` given as `flag value` at or after the position, both then
/// removed; nothing where the option is absent.
pub open spec fn option_spec(st: ArgState, flag: Seq<char>) -> Result<(Option<Seq<char>>, ArgState), Seq<char>> {
    match flag_from(st.args, flag, st.index) {
        None => Ok((None, st)),
        Some(f) => if f + 1 >= st.args.len() || is_option(st.args[f + 1]) {
            Err("missing value for "@ + flag)
        } else {
            Ok((Some(st.args[f + 1]), ArgState { args: st.args.remove(f + 1).remove(f), index: st.index }))
        },
    }
}

/// The value of a numeric option, at least 1.
pub open spec fn number_spec(st: ArgState, flag: Seq<char>) -> Result<(Option<usize>, ArgState), Seq<char>> {
    match option_spec(st, flag) {
        Err(e) => Err(e),
        Ok((None, s2)) => Ok((None, s2)),
        Ok((Some(v), s2)) => match parse_usize_spec(v) {
            None => Err(flag + " must be a positive number"@),
            Some(n) => Ok((Some(if n < 1 { 1 } else { n }), s2)),
        },
    }
}

/// Whether a switch is given at or after the position; it is then removed.
pub open spec fn switch_spec(st: ArgState, flag: Seq<char>) -> (bool, ArgState) {
    match flag_from(st.args, flag, st.index) {
        None => (false, st),
        Some(f) => (true, ArgState { args: st.args.remove(f), index: st.index }),
    }
}

/// The error of arguments left over, if any.
pub open spec fn finish_spec(st: ArgState) -> Option<Seq<char>> {
    if st.index == st.args.len() {
        None
    } else {
        Some("unexpected argument '"@ + st.args[st.index] + "'"@)
    }
}

/// `root` joined with the relative name `name`, as `Path::join` gives it.
pub open spec fn join_path(root: Seq<char>, name: Seq<char>) -> Seq<char> {
    if root.len() == 0 || root.last() == '/' {
        root + name
    } else {
        root + seq!['/'] + name
    }
}

/// `--root` (else the working directory, whose failure is `Err(None)`) and `--cache`.
pub open spec fn place_spec(st: ArgState, cwd: Option<Seq<char>>) -> Result<(Seq<char>, Option<Seq<char>>, ArgState), Option<Seq<char>>> {
    match option_spec(st, "--root"@) {
        Err(m) => Err(Some(m)),
        Ok((r, s1)) => match cwd {
            None => Err(None),
            Some(c) => match option_spec(s1, "--cache"@) {
                Err(m) => Err(Some(m)),
                Ok((cache, s2)) => Ok(
                    (
                        match r {
                            Some(x) => x,
                            None => c,
                        },
                        cache,
                        s2,
                    ),
                ),
            },
        },
    }
}

/// `c` where nothing is left over, else the error of the leftover.
pub open spec fn finished(st: ArgState, c: CommandView) -> Result<CommandView, Option<Seq<char>>> {
    match finish_spec(st) {
        None => Ok(c),
        Some(m) => Err(Some(m)),
    }
}

/// A command that takes only `--root` and `--cache`.
pub open spec fn place_command(name: Seq<char>, root: Seq<char>, cache: Option<Seq<char>>) -> CommandView {
    if name == "stats"@ {
        CommandView::Stats { root, cache }
    } else if name == "links"@ {
        CommandView::Links { root, cache }
    } else if name == "graph"@ {
        CommandView::Graph { root, cache }
    } else {
        CommandView::Doctor { root, cache }
    }
}

pub open spec fn index_spec(st: ArgState) -> Result<CommandView, Option<Seq<char>>> {
    match next_string_spec(st, "root directory"@) {
        Err(m) => Err(Some(m)),
        Ok((root, s1)) => match option_spec(s1, "--cache"@) {
            Err(m) => Err(Some(m)),
            Ok((cache, s2)) => finished(
                s2,
                CommandView::Index {
                    root,
                    cache: match cache {
                        Some(c) => c,
                        None => join_path(root, ".mdseek-cache"@),
                    },
                },
            ),
        },
    }
}

pub open spec fn search_spec(st: ArgState, cwd: Option<Seq<char>>) -> Result<CommandView, Option<Seq<char>>> {
    match next_string_spec(st, "query"@) {
        Err(m) => Err(Some(m)),
        Ok((query, s1)) => match place_spec(s1, cwd) {
            Err(e) => Err(e),
            Ok((root, cache, s2)) => match number_spec(s2, "--limit"@) {
                Err(m) => Err(Some(m)),
                Ok((limit, s3)) => {
                    let (cs, s4) = switch_spec(s3, "--case-sensitive"@);
                    finished(
                        s4,
                        CommandView::Search {
                            query,
                            root,
                            cache,
                            limit: match limit {
                                Some(l) => l,
                                None => 10,
                            },
                            case_sensitive: cs,
                        },
                    )
                },
            },
        },
    }
}

pub open spec fn backlinks_spec(st: ArgState, cwd: Option<Seq<char>>) -> Result<CommandView, Option<Seq<char>>> {
    match next_string_spec(st, "target markdown file"@) {
        Err(m) => Err(Some(m)),
        Ok((target, s1)) => match place_spec(s1, cwd) {
            Err(e) => Err(e),
            Ok((root, cache, s2)) => finished(s2, CommandView::Backlinks { target, root, cache }),
        },
    }
}

pub open spec fn report_spec(st: ArgState, cwd: Option<Seq<char>>) -> Result<CommandView, Option<Seq<char>>> {
    match place_spec(st, cwd) {
        Err(e) => Err(e),
        Ok((root, cache, s1)) => match option_spec(s1, "--format"@) {
            Err(m) => Err(Some(m)),
            Ok((f, s2)) => {
                let format = match f {
                    None => Some(ReportFormat::Markdown),
                    Some(v) => format_named(v),
                };
                match format {
                    None => Err(Some("--format must be markdown, md, html, or htm"@)),
                    Some(format) => match option_spec(s2, "--output"@) {
                        Err(m) => Err(Some(m)),
                        Ok((output, s3)) => finished(s3, CommandView::Report { root, cache, format, output }),
                    },
                }
            },
        },
    }
}

pub open spec fn suggest_spec(st: ArgState, cwd: Option<Seq<char>>) -> Result<CommandView, Option<Seq<char>>> {
    match place_spec(st, cwd) {
        Err(e) => Err(e),
        Ok((root, cache, s1)) => match number_spec(s1, "--limit"@) {
            Err(m) => Err(Some(m)),
            Ok((limit, s2)) => match number_spec(s2, "--min-score"@) {
                Err(m) => Err(Some(m)),
                Ok((min, s3)) => finished(
                    s3,
                    CommandView::SuggestLinks {
                        root,
                        cache,
                        limit: match limit {
                            Some(l) => l,
                            None => 12,
                        },
                        min_score: match min {
                            Some(m) => (m as int % 4294967296) as u32,
                            None => 5,
                        },
                    },
                ),
            },
        },
    }
}

/// What `parse_args` gives for the arguments (the program's name first) and the working
/// directory (`None` where it could not be read): a command, `Err(Some(message))` for invalid
/// arguments, or `Err(None)` where the command needs the working directory and it failed.
pub open spec fn parse_spec(args: Seq<Seq<char>>, cwd: Option<Seq<char>>) -> Result<CommandView, Option<Seq<char>>> {
    if args.len() <= 1 {
        Ok(CommandView::Help)
    } else {
        let name = args[1];
        let st = ArgState { args, index: 2 };
        if name == "index"@ {
            index_spec(st)
        } else if name == "search"@ {
            search_spec(st, cwd)
        } else if name == "stats"@ || name == "links"@ || name == "graph"@ || name == "doctor"@ {
            match place_spec(st, cwd) {
                Err(e) => Err(e),
                Ok((root, cache, s1)) => finished(s1, place_command(name, root, cache)),
            }
        } else if name == "backlinks"@ {
            backlinks_spec(st, cwd)
        } else if name == "report"@ {
            report_spec(st, cwd)
        } else if name == "suggest-links"@ {
            suggest_spec(st, cwd)
        } else if name == "help"@ || name == "-h"@ || name == "--help"@ {
            Ok(CommandView::Help)
        } else {
            Err(Some("unknown command '"@ + name + "'. Run `mdseek help`."@))
        }
    }
}


proof fn lemma_flag_from(args: Seq<Seq<char>>, flag: Seq<char>, p: int)
    requires
        0 <= p,
    ensures
        match flag_from(args, flag, p) {
            Some(f) => p <= f < args.len() && args[f] == flag && forall|k: int| p <= k < f ==> args[k] != flag,
            None => forall|k: int| p <= k < args.len() ==> args[k] != flag,
        },
    decreases args.len() - p,
{
    if p < args.len() && args[p] != flag {
        lemma_flag_from(args, flag, p + 1);
    }
}

/// Reads the arguments left to right; options may stand anywhere after the position.
struct ArgParser {
    args: Vec<String>,
    index: usize,
}

fn owned(s: &str) -> (r: String)
    ensures
        r@ == s@,
{
    let mut r = String::new();
    r.append(s);
    r
}

fn invalid2(a: &str, b: &str) -> (r: MdSeekError)
    ensures
        r matches MdSeekError::InvalidArgs(m) && m@ == a@ + b@,
{
    let mut m = String::new();
    m.append(a);
    m.append(b);
    MdSeekError::InvalidArgs(m)
}

fn invalid3(a: &str, b: &str, c: &str) -> (r: MdSeekError)
    ensures
        r matches MdSeekError::InvalidArgs(m) && m@ == a@ + b@ + c@,
{
    let mut m = String::new();
    m.append(a);
    m.append(b);
    m.append(c);
    MdSeekError::InvalidArgs(m)
}

fn starts_option(s: &str) -> (r: bool)
    ensures
        r == is_option(s@),
{
    let cs = chars_of(s);
    cs.len() >= 2 && cs[0] == '-' && cs[1] == '-'
}

impl ArgParser {
    spec fn state(&self) -> ArgState {
        ArgState { args: crate::text::string_views(self.args@), index: self.index as int }
    }

    fn new(args: Vec<String>) -> (r: Self)
        ensures
            r.state() == (ArgState { args: crate::text::string_views(args@), index: 1 }),
    {
        ArgParser { args, index: 1 }
    }

    fn next_command(&mut self) -> (r: Option<String>)
        ensures
            if old(self).index >= old(self).args.len() {
                r is None && final(self).state() == old(self).state()
            } else {
                r matches Some(s) && s@ == old(self).state().args[old(self).index as int]
                    && final(self).state() == (ArgState { args: old(self).state().args, index: old(self).index + 1 })
            },
    {
        if self.index >= self.args.len() {
            return None;
        }
        let value = self.args[self.index].clone();
        self.index = self.index + 1;
        Some(value)
    }

    fn next_string(&mut self, name: &str) -> (r: Result<String, MdSeekError>)
        ensures
            match next_string_spec(old(self).state(), name@) {
                Ok((v, st)) => r matches Ok(x) && x@ == v && final(self).state() == st,
                Err(m) => r matches Err(MdSeekError::InvalidArgs(e)) && e@ == m,
            },
            final(self).index <= final(self).args.len() || final(self).state() == old(self).state(),
    {
        if self.index >= self.args.len() {
            return Err(invalid2("missing ", name));
        }
        let value = self.args[self.index].clone();
        if starts_option(value.as_str()) {
            return Err(invalid2("missing ", name));
        }
        self.index = self.index + 1;
        Ok(value)
    }

    fn find_flag(&self, flag: &str) -> (r: Option<usize>)
        requires
            self.index <= self.args.len(),
        ensures
            match flag_from(self.state().args, flag@, self.index as int) {
                Some(f) => r == Some(f as usize),
                None => r is None,
            },
    {
        let ghost av = self.state().args;
        proof {
            lemma_flag_from(av, flag@, self.index as int);
        }
        let mut p = self.index;
        while p < self.args.len()
            invariant
                self.index <= p <= self.args.len(),
                av == self.state().args,
                flag_from(av, flag@, self.index as int) == flag_from(av, flag@, p as int),
            decreases self.args.len() - p,
        {
            assert(av[p as int] == self.args@[p as int]@);
            if str_eq(self.args[p].as_str(), flag) {
                return Some(p);
            }
            p += 1;
        }
        None
    }

    /// The value of an option (see `option_spec`).
    fn optional_value(&mut self, flag: &str) -> (r: Result<Option<String>, MdSeekError>)
        requires
            old(self).index <= old(self).args.len(),
        ensures
            match option_spec(old(self).state(), flag@) {
                Ok((v, st)) => r matches Ok(x) && ov(x) == v && final(self).state() == st,
                Err(m) => r matches Err(MdSeekError::InvalidArgs(e)) && e@ == m,
            },
            final(self).index <= final(self).args.len(),
    {
        let ghost st = self.state();
        proof {
            lemma_flag_from(st.args, flag@, self.index as int);
        }
        let flag_index = match self.find_flag(flag) {
            None => {
                return Ok(None);
            },
            Some(f) => f,
        };
        let value_index = flag_index + 1;
        if value_index >= self.args.len() {
            return Err(invalid2("missing value for ", flag));
        }
        assert(st.args[value_index as int] == self.args@[value_index as int]@);
        if starts_option(self.args[value_index].as_str()) {
            return Err(invalid2("missing value for ", flag));
        }
        let value = self.args.remove(value_index);
        let ghost a1 = self.args@;
        self.args.remove(flag_index);
        assert(crate::text::string_views(self.args@) =~= st.args.remove(value_index as int).remove(
            flag_index as int,
        ));
        Ok(Some(value))
    }

    /// The value of a numeric option (see `number_spec`).
    fn optional_usize(&mut self, flag: &str) -> (r: Result<Option<usize>, MdSeekError>)
        requires
            old(self).index <= old(self).args.len(),
        ensures
            match number_spec(old(self).state(), flag@) {
                Ok((v, st)) => r matches Ok(x) && x == v && final(self).state() == st,
                Err(m) => r matches Err(MdSeekError::InvalidArgs(e)) && e@ == m,
            },
            final(self).index <= final(self).args.len(),
    {
        match self.optional_value(flag) {
            Err(e) => Err(e),
            Ok(None) => Ok(None),
            Ok(Some(v)) => match parse_usize(chars_of(v.as_str()).as_slice()) {
                None => Err(invalid2(flag, " must be a positive number")),
                Some(n) => Ok(Some(if n < 1 { 1 } else { n })),
            },
        }
    }

    /// Whether a switch is given (see `switch_spec`).
    fn optional_flag(&mut self, flag: &str) -> (r: bool)
        requires
            old(self).index <= old(self).args.len(),
        ensures
            (r, final(self).state()) == switch_spec(old(self).state(), flag@),
            final(self).index <= final(self).args.len(),
    {
        let ghost st = self.state();
        proof {
            lemma_flag_from(st.args, flag@, self.index as int);
        }
        match self.find_flag(flag) {
            Some(f) => {
                self.args.remove(f);
                assert(crate::text::string_views(self.args@) =~= st.args.remove(f as int));
                true
            },
            None => false,
        }
    }

    /// Nothing may be left over (see `finish_spec`).
    fn finish(&self) -> (r: Result<(), MdSeekError>)
        requires
            self.index <= self.args.len(),
        ensures
            match finish_spec(self.state()) {
                None => r is Ok,
                Some(m) => r matches Err(MdSeekError::InvalidArgs(e)) && e@ == m,
            },
    {
        if self.index == self.args.len() {
            Ok(())
        } else {
            assert(self.state().args[self.index as int] == self.args@[self.index as int]@);
            Err(invalid3("unexpected argument '", self.args[self.index].as_str(), "'"))
        }
    }
}


/// The working directory as `parse_spec` takes it: `None` where it could not be read.
pub open spec fn cwd_view(cwd: Result<String, MdSeekError>) -> Option<Seq<char>> {
    match cwd {
        Ok(s) => Some(s@),
        Err(_) => None,
    }
}

/// `r` is what `parse_spec`'s result `s` describes, with `cwd` the working directory given.
pub open spec fn outcome_is<T: View>(
    s: Result<T::V, Option<Seq<char>>>,
    cwd: Result<String, MdSeekError>,
    r: Result<T, MdSeekError>,
) -> bool {
    match s {
        Ok(c) => r matches Ok(x) && x@ == c,
        Err(Some(m)) => r matches Err(MdSeekError::InvalidArgs(e)) && e@ == m,
        Err(None) => match cwd {
            Err(e) => r == Err::<T, MdSeekError>(e),
            Ok(_) => false,
        },
    }
}

/// A place: a root path and an optional cache path.
struct Place {
    root: String,
    cache: Option<String>,
}

impl View for Place {
    type V = (Seq<char>, Option<Seq<char>>);

    closed spec fn view(&self) -> (Seq<char>, Option<Seq<char>>) {
        (self.root@, ov(self.cache))
    }
}

/// The place part of `place_spec`, without the state.
pub open spec fn place_part(
    r: Result<(Seq<char>, Option<Seq<char>>, ArgState), Option<Seq<char>>>,
) -> Result<(Seq<char>, Option<Seq<char>>), Option<Seq<char>>> {
    match r {
        Ok((a, b, _)) => Ok((a, b)),
        Err(e) => Err(e),
    }
}

fn read_place(parser: &mut ArgParser, cwd: Result<String, MdSeekError>) -> (r: Result<Place, MdSeekError>)
    requires
        old(parser).index <= old(parser).args.len(),
    ensures
        outcome_is::<Place>(place_part(place_spec(old(parser).state(), cwd_view(cwd))), cwd, r),
        r is Ok ==> (place_spec(old(parser).state(), cwd_view(cwd)) matches Ok((_, _, st)) && final(parser).state()
            == st),
        final(parser).index <= final(parser).args.len(),
{
    let root = match parser.optional_value("--root") {
        Ok(v) => v,
        Err(e) => {
            return Err(e);
        },
    };
    let dir = match cwd {
        Ok(c) => c,
        Err(e) => {
            return Err(e);
        },
    };
    let root = match root {
        Some(x) => x,
        None => dir,
    };
    let cache = match parser.optional_value("--cache") {
        Ok(v) => v,
        Err(e) => {
            return Err(e);
        },
    };
    Ok(Place { root, cache })
}

fn finish_with(parser: &ArgParser, c: Command) -> (r: Result<Command, MdSeekError>)
    requires
        parser.index <= parser.args.len(),
    ensures
        match finished(parser.state(), c@) {
            Ok(v) => r matches Ok(x) && x@ == v,
            Err(Some(m)) => r matches Err(MdSeekError::InvalidArgs(e)) && e@ == m,
            Err(None) => false,
        },
{
    match parser.finish() {
        Ok(()) => Ok(c),
        Err(e) => Err(e),
    }
}

fn join_root(root: &String, name: &str) -> (r: String)
    ensures
        r@ == join_path(root@, name@),
{
    let cs = chars_of(root.as_str());
    let mut out = root.clone();
    if cs.len() > 0 && cs[cs.len() - 1] != '/' {
        crate::text::push_char(&mut out, '/');
    }
    out.append(name);
    out
}

fn parse_index(parser: &mut ArgParser) -> (r: Result<Command, MdSeekError>)
    requires
        old(parser).index <= old(parser).args.len(),
    ensures
        match index_spec(old(parser).state()) {
            Ok(v) => r matches Ok(x) && x@ == v,
            Err(Some(m)) => r matches Err(MdSeekError::InvalidArgs(e)) && e@ == m,
            Err(None) => false,
        },
{
    let root = match parser.next_string("root directory") {
        Ok(v) => v,
        Err(e) => {
            return Err(e);
        },
    };
    let cache = match parser.optional_value("--cache") {
        Ok(v) => v,
        Err(e) => {
            return Err(e);
        },
    };
    let cache = match cache {
        Some(c) => c,
        None => join_root(&root, ".mdseek-cache"),
    };
    finish_with(parser, Command::Index { root, cache })
}

fn parse_search(parser: &mut ArgParser, cwd: Result<String, MdSeekError>) -> (r: Result<Command, MdSeekError>)
    requires
        old(parser).index <= old(parser).args.len(),
    ensures
        outcome_is::<Command>(search_spec(old(parser).state(), cwd_view(cwd)), cwd, r),
{
    let query = match parser.next_string("query") {
        Ok(v) => v,
        Err(e) => {
            return Err(e);
        },
    };
    let place = match read_place(parser, cwd) {
        Ok(p) => p,
        Err(e) => {
            return Err(e);
        },
    };
    let limit = match parser.optional_usize("--limit") {
        Ok(v) => v,
        Err(e) => {
            return Err(e);
        },
    };
    let limit = match limit {
        Some(l) => l,
        None => 10,
    };
    let case_sensitive = parser.optional_flag("--case-sensitive");
    finish_with(parser, Command::Search { query, root: place.root, cache: place.cache, limit, case_sensitive })
}

fn parse_backlinks(parser: &mut ArgParser, cwd: Result<String, MdSeekError>) -> (r: Result<Command, MdSeekError>)
    requires
        old(parser).index <= old(parser).args.len(),
    ensures
        outcome_is::<Command>(backlinks_spec(old(parser).state(), cwd_view(cwd)), cwd, r),
{
    let target = match parser.next_string("target markdown file") {
        Ok(v) => v,
        Err(e) => {
            return Err(e);
        },
    };
    let place = match read_place(parser, cwd) {
        Ok(p) => p,
        Err(e) => {
            return Err(e);
        },
    };
    finish_with(parser, Command::Backlinks { target, root: place.root, cache: place.cache })
}

fn parse_report(parser: &mut ArgParser, cwd: Result<String, MdSeekError>) -> (r: Result<Command, MdSeekError>)
    requires
        old(parser).index <= old(parser).args.len(),
    ensures
        outcome_is::<Command>(report_spec(old(parser).state(), cwd_view(cwd)), cwd, r),
{
    let place = match read_place(parser, cwd) {
        Ok(p) => p,
        Err(e) => {
            return Err(e);
        },
    };
    let f = match parser.optional_value("--format") {
        Ok(v) => v,
        Err(e) => {
            return Err(e);
        },
    };
    let format = match f {
        None => ReportFormat::Markdown,
        Some(v) => match ReportFormat::parse(v.as_str()) {
            Some(x) => x,
            None => {
                let mut m = String::new();
                m.append("--format must be markdown, md, html, or htm");
                return Err(MdSeekError::InvalidArgs(m));
            },
        },
    };
    let output = match parser.optional_value("--output") {
        Ok(v) => v,
        Err(e) => {
            return Err(e);
        },
    };
    finish_with(parser, Command::Report { root: place.root, cache: place.cache, format, output })
}

fn parse_suggest(parser: &mut ArgParser, cwd: Result<String, MdSeekError>) -> (r: Result<Command, MdSeekError>)
    requires
        old(parser).index <= old(parser).args.len(),
    ensures
        outcome_is::<Command>(suggest_spec(old(parser).state(), cwd_view(cwd)), cwd, r),
{
    let place = match read_place(parser, cwd) {
        Ok(p) => p,
        Err(e) => {
            return Err(e);
        },
    };
    let limit = match parser.optional_usize("--limit") {
        Ok(v) => v,
        Err(e) => {
            return Err(e);
        },
    };
    let min = match parser.optional_usize("--min-score") {
        Ok(v) => v,
        Err(e) => {
            return Err(e);
        },
    };
    let limit = match limit {
        Some(l) => l,
        None => 12,
    };
    let min_score: u32 = match min {
        Some(m) => ((m as u64) % 4294967296u64) as u32,
        None => 5,
    };
    finish_with(parser, Command::SuggestLinks { root: place.root, cache: place.cache, limit, min_score })
}

fn parse_place_command(parser: &mut ArgParser, cwd: Result<String, MdSeekError>, name: &String) -> (r: Result<Command, MdSeekError>)
    requires
        old(parser).index <= old(parser).args.len(),
    ensures
        outcome_is::<Command>(
            match place_spec(old(parser).state(), cwd_view(cwd)) {
                Err(e) => Err(e),
                Ok((root, cache, s1)) => finished(s1, place_command(name@, root, cache)),
            },
            cwd,
            r,
        ),
{
    let place = match read_place(parser, cwd) {
        Ok(p) => p,
        Err(e) => {
            return Err(e);
        },
    };
    let root = place.root;
    let cache = place.cache;
    let c = if str_eq(name.as_str(), "stats") {
        Command::Stats { root, cache }
    } else if str_eq(name.as_str(), "links") {
        Command::Links { root, cache }
    } else if str_eq(name.as_str(), "graph") {
        Command::Graph { root, cache }
    } else {
        Command::Doctor { root, cache }
    };
    finish_with(parser, c)
}

/// The command that the arguments give (the program's name first), with `cwd` the working
/// directory for commands whose root is not given (see `parse_spec`).
pub fn parse_args(args: Vec<String>, cwd: Result<String, MdSeekError>) -> (r: Result<Command, MdSeekError>)
    ensures
        outcome_is::<Command>(parse_spec(crate::text::string_views(args@), cwd_view(cwd)), cwd, r),
{
    let mut parser = ArgParser::new(args);
    let command = match parser.next_command() {
        None => {
            return Ok(Command::Help);
        },
        Some(c) => c,
    };
    let name = command.as_str();
    if str_eq(name, "index") {
        parse_index(&mut parser)
    } else if str_eq(name, "search") {
        parse_search(&mut parser, cwd)
    } else if str_eq(name, "stats") || str_eq(name, "links") || str_eq(name, "graph") || str_eq(name, "doctor") {
        parse_place_command(&mut parser, cwd, &command)
    } else if str_eq(name, "backlinks") {
        parse_backlinks(&mut parser, cwd)
    } else if str_eq(name, "report") {
        parse_report(&mut parser, cwd)
    } else if str_eq(name, "suggest-links") {
        parse_suggest(&mut parser, cwd)
    } else if str_eq(name, "help") || str_eq(name, "-h") || str_eq(name, "--help") {
        Ok(Command::Help)
    } else {
        Err(invalid3("unknown command '", name, "'. Run `mdseek help`."))
    }
}


/// The label of a severity in the command's output: `critical`, `warning` or `info`.
pub fn severity_label(severity: Severity) -> (r: &'static str)
    ensures
        r@ == severity_text(severity),
{
    match severity {
        Severity::Critical => "critical",
        Severity::Warning => "warning",
        Severity::Info => "info",
    }
}

} // verus!
