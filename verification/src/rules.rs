//! The normalization rules: redaction rewrites, exclusion patterns and flag
//! patterns, all held as pattern source strings in a configuration value and
//! evaluated through the `regex` crate.
use vstd::prelude::*;
use vstd::string::*;

verus! {

/// Whether the regular expression `pattern` matches anywhere in `text`
/// (a pattern that does not compile matches nothing).
pub uninterp spec fn re_match(pattern: Seq<char>, text: Seq<char>) -> bool;

/// `text` with every non-overlapping match of `pattern` replaced by `rep`
/// (unchanged under a pattern that does not compile).
pub uninterp spec fn re_replace_all(pattern: Seq<char>, text: Seq<char>, rep: Seq<char>) -> Seq<
    char,
>;

/// Relies on `regex::Regex::is_match`: whether the pattern matches anywhere
/// in the text, a function of the two strings alone. A pattern that does not
/// compile is treated as matching nothing.
#[verifier::external_body]
pub fn regex_is_match(pattern: &str, text: &str) -> (r: bool)
    ensures
        r == re_match(pattern@, text@),
{
    match regex::Regex::new(pattern) {
        Ok(re) => re.is_match(text),
        Err(_) => false,
    }
}

/// Relies on `regex::Regex::replace_all`: every non-overlapping match of the
/// pattern is replaced by the replacement, and a text the pattern does not
/// match anywhere comes back unchanged (so does one whose pattern does not
/// compile).
#[verifier::external_body]
pub fn regex_replace_all(pattern: &str, text: &str, rep: &str) -> (r: String)
    ensures
        r@ == re_replace_all(pattern@, text@, rep@),
        !re_match(pattern@, text@) ==> r@ == text@,
{
    match regex::Regex::new(pattern) {
        Ok(re) => re.replace_all(text, rep).into_owned(),
        Err(_) => text.to_owned(),
    }
}

/// The rule lists and thresholds one run of the pipeline works under.
pub struct Config {
    /// A redacted command strictly shorter than this many characters
    /// (counting its trailing newline) is excluded.
    pub min_length: usize,
    /// A redacted command at least this many characters long is recorded in
    /// the size index for diagnostic reporting.
    pub big_threshold: usize,
    /// A command matching any of these patterns is excluded from the output.
    pub exclude_patterns: Vec<String>,
    /// Redaction rules, applied in order: each pattern's matches are replaced
    /// by the paired literal.
    pub replacements: Vec<(String, String)>,
    /// A command matching any of these patterns is flagged for review.
    pub flag_patterns: Vec<String>,
}

/// The mathematical shadow of a `Config`.
pub ghost struct ConfigV {
    pub min_length: nat,
    pub big_threshold: nat,
    pub exclude_patterns: Seq<Seq<char>>,
    pub replacements: Seq<(Seq<char>, Seq<char>)>,
    pub flag_patterns: Seq<Seq<char>>,
}

impl View for Config {
    type V = ConfigV;

    open spec fn view(&self) -> ConfigV {
        ConfigV {
            min_length: self.min_length as nat,
            big_threshold: self.big_threshold as nat,
            exclude_patterns: self.exclude_patterns.deep_view(),
            replacements: self.replacements.deep_view(),
            flag_patterns: self.flag_patterns.deep_view(),
        }
    }
}

/// Whether `t` matches any of the exclusion patterns.
pub open spec fn excluded_spec(pats: Seq<Seq<char>>, t: Seq<char>) -> bool {
    exists|i: int| 0 <= i < pats.len() && re_match(#[trigger] pats[i], t)
}

/// The redaction rules applied in order, each to the result of the previous.
pub open spec fn apply_replacements(reps: Seq<(Seq<char>, Seq<char>)>, t: Seq<char>) -> Seq<char>
    decreases reps.len(),
{
    if reps.len() == 0 {
        t
    } else {
        apply_replacements(reps.skip(1), re_replace_all(reps[0].0, t, reps[0].1))
    }
}

/// Redaction of a stored command text: the rules run over the body (the text
/// without its trailing newline), which is then newline-terminated again, so
/// no rule can eat the record boundary.
pub open spec fn filter_spec(reps: Seq<(Seq<char>, Seq<char>)>, t: Seq<char>) -> Seq<char>
    recommends
        t.len() > 0 && t.last() == '\n',
{
    apply_replacements(reps, t.drop_last()).push('\n')
}

/// The first flag pattern that matches `t`, if any.
pub open spec fn flag_hit(pats: Seq<Seq<char>>, t: Seq<char>) -> Option<Seq<char>>
    decreases pats.len(),
{
    if pats.len() == 0 {
        Option::None
    } else if re_match(pats[0], t) {
        Option::Some(pats[0])
    } else {
        flag_hit(pats.skip(1), t)
    }
}

/// The diagnostic line recorded for a flagged command.
pub open spec fn flag_text(p: Seq<char>, t: Seq<char>) -> Seq<char> {
    "Flagged for '"@ + p + "': "@ + t
}

/// The flagged list after seeing `t`: unchanged when no pattern matches or
/// the diagnostic line is already present, else that line appended.
pub open spec fn flag_step(pats: Seq<Seq<char>>, flagged: Seq<Seq<char>>, t: Seq<char>) -> Seq<
    Seq<char>,
> {
    match flag_hit(pats, t) {
        Option::None => flagged,
        Option::Some(p) => {
            if flagged.contains(flag_text(p, t)) {
                flagged
            } else {
                flagged.push(flag_text(p, t))
            }
        },
    }
}

/// The options one run is invoked with, as the command line hands them over.
pub struct Args {
    /// Only preserve commands at least this long (counting the trailing
    /// newline of the stored text).
    pub min_length: u16,
    /// The logging level name: one of off, error, warn, info, debug, trace.
    pub log: String,
    /// The history file to read, when given explicitly.
    pub input: Option<String>,
    /// The file the shrunk history is written to.
    pub output: String,
}

impl Default for Args {
    /// The defaults: length 15, info-level logging, input resolved by the
    /// caller, output written to `shrunk_history`.
    fn default() -> (r: Args)
        ensures
            r.min_length == 15,
            r.log@ == "info"@,
            r.input is None,
            r.output@ == "shrunk_history"@,
    {
        Args {
            min_length: 15,
            log: String::from_str("info"),
            input: Option::None,
            output: String::from_str("shrunk_history"),
        }
    }
}

/// The built-in exclusion patterns: high-frequency low-value commands, and
/// clipboard/base64 pipes that likely carry secrets.
pub open spec fn default_excludes() -> Seq<Seq<char>> {
    seq![
        "^echo "@,
        "^en "@,
        "^cd "@,
        "^cd$"@,
        "^ls "@,
        "^ls$"@,
        "^l "@,
        "^l$"@,
        "^la "@,
        "^la$"@,
        "^lt "@,
        "^lt$"@,
        "^vi "@,
        "^md "@,
        "^rd "@,
        "^mv "@,
        "^rm "@,
        "^cp "@,
        "^ij "@,
        "^rr "@,
        "^s "@,
        "^type "@,
        "^sk8s "@,
        "^history"@,
        "^fexpr "@,
        "^git add"@,
        "^git pull"@,
        "^gpull"@,
        "^gst"@,
        "^git status"@,
        "^git checkout"@,
        "^git mv"@,
        "^git rm"@,
        "^git diff"@,
        "^8"@,
        "help"@,
        "echo.*\\| *pbcopy"@,
        "en .*\\| *pbcopy"@,
        "echo.*\\| *clip.exe"@,
        "en .*\\| *clip.exe"@,
        "echo.*\\| *base64"@,
        "en .*\\| *base64"@,
    ]
}

/// The built-in redaction rules: bearer tokens and three shapes of password
/// assignment, each rewritten to a fixed literal.
pub open spec fn default_replacements() -> Seq<(Seq<char>, Seq<char>)> {
    seq![
        ("Authorization: Bearer [^'\"]*"@, "Authorization: Bearer xxx"@),
        ("password=\"[^$][^ ]*"@, "password=XXX"@),
        ("password=[^$][^ ]*"@, "password=XXX"@),
        ("password: ?[^ ]*"@, "password: XXX"@),
    ]
}

/// The built-in flag patterns: indicators of passwords, SSH use, secrets,
/// base64 blobs and encryption tooling.
pub open spec fn default_flags() -> Seq<Seq<char>> {
    seq!["password"@, "ssh"@, "secret"@, "base64"@, "jasypt"@]
}

impl Config {
    /// The built-in rule set: the stock exclusions (high-frequency commands
    /// and clipboard/base64 pipes), the bearer-token and password redactions,
    /// and the sensitive-content flag patterns, with the given minimum length
    /// and the default size threshold of 200 characters.
    pub fn with_default_rules(min_length: usize) -> (r: Config)
        ensures
            r@.min_length == min_length,
            r@.big_threshold == 200,
            r@.exclude_patterns == default_excludes(),
            r@.replacements == default_replacements(),
            r@.flag_patterns == default_flags(),
    {
        let mut exclude: Vec<String> = Vec::new();
        exclude.push(String::from_str("^echo "));
        exclude.push(String::from_str("^en "));
        exclude.push(String::from_str("^cd "));
        exclude.push(String::from_str("^cd$"));
        exclude.push(String::from_str("^ls "));
        exclude.push(String::from_str("^ls$"));
        exclude.push(String::from_str("^l "));
        exclude.push(String::from_str("^l$"));
        exclude.push(String::from_str("^la "));
        exclude.push(String::from_str("^la$"));
        exclude.push(String::from_str("^lt "));
        exclude.push(String::from_str("^lt$"));
        exclude.push(String::from_str("^vi "));
        exclude.push(String::from_str("^md "));
        exclude.push(String::from_str("^rd "));
        exclude.push(String::from_str("^mv "));
        exclude.push(String::from_str("^rm "));
        exclude.push(String::from_str("^cp "));
        exclude.push(String::from_str("^ij "));
        exclude.push(String::from_str("^rr "));
        exclude.push(String::from_str("^s "));
        exclude.push(String::from_str("^type "));
        exclude.push(String::from_str("^sk8s "));
        exclude.push(String::from_str("^history"));
        exclude.push(String::from_str("^fexpr "));
        exclude.push(String::from_str("^git add"));
        exclude.push(String::from_str("^git pull"));
        exclude.push(String::from_str("^gpull"));
        exclude.push(String::from_str("^gst"));
        exclude.push(String::from_str("^git status"));
        exclude.push(String::from_str("^git checkout"));
        exclude.push(String::from_str("^git mv"));
        exclude.push(String::from_str("^git rm"));
        exclude.push(String::from_str("^git diff"));
        exclude.push(String::from_str("^8"));
        exclude.push(String::from_str("help"));
        exclude.push(String::from_str("echo.*\\| *pbcopy"));
        exclude.push(String::from_str("en .*\\| *pbcopy"));
        exclude.push(String::from_str("echo.*\\| *clip.exe"));
        exclude.push(String::from_str("en .*\\| *clip.exe"));
        exclude.push(String::from_str("echo.*\\| *base64"));
        exclude.push(String::from_str("en .*\\| *base64"));
        let mut replacements: Vec<(String, String)> = Vec::new();
        replacements.push(
            (
                String::from_str("Authorization: Bearer [^'\"]*"),
                String::from_str("Authorization: Bearer xxx"),
            ),
        );
        replacements.push(
            (String::from_str("password=\"[^$][^ ]*"), String::from_str("password=XXX")),
        );
        replacements.push(
            (String::from_str("password=[^$][^ ]*"), String::from_str("password=XXX")),
        );
        replacements.push(
            (String::from_str("password: ?[^ ]*"), String::from_str("password: XXX")),
        );
        let mut flags: Vec<String> = Vec::new();
        flags.push(String::from_str("password"));
        flags.push(String::from_str("ssh"));
        flags.push(String::from_str("secret"));
        flags.push(String::from_str("base64"));
        flags.push(String::from_str("jasypt"));
        let r = Config {
            min_length,
            big_threshold: 200,
            exclude_patterns: exclude,
            replacements,
            flag_patterns: flags,
        };
        proof {
            assert(r@.exclude_patterns =~= default_excludes());
            assert(r@.replacements =~= default_replacements());
            assert(r@.flag_patterns =~= default_flags());
        }
        r
    }
}

/// Whether `v` holds a string equal to `s`.
pub fn vec_contains_string(v: &Vec<String>, s: &String) -> (r: bool)
    ensures
        r == v.deep_view().contains(s@),
{
    let n = v.len();
    let mut i: usize = 0;
    while i < n
        invariant
            0 <= i <= n,
            n == v@.len(),
            forall|k: int| 0 <= k < i ==> v.deep_view()[k] != s@,
        decreases n - i,
    {
        let vi: &String = &v[i];
        if vi.eq(s) {
            proof {
                assert(v.deep_view()[i as int] == s@);
            }
            return true;
        }
        proof {
            assert(v.deep_view()[i as int] == v@[i as int]@);
        }
        i = i + 1;
    }
    proof {
        if v.deep_view().contains(s@) {
            let k = choose|k: int| 0 <= k < v.deep_view().len() && v.deep_view()[k] == s@;
            assert(v.deep_view()[k] != s@);
        }
    }
    false
}

/// The exclusion test: whether the (already redacted) command matches any
/// exclusion pattern.
pub fn should_exclude_cmd(cfg: &Config, command: &String) -> (r: bool)
    ensures
        r == excluded_spec(cfg@.exclude_patterns, command@),
{
    let n = cfg.exclude_patterns.len();
    let mut i: usize = 0;
    while i < n
        invariant
            0 <= i <= n,
            n == cfg.exclude_patterns@.len(),
            forall|k: int| 0 <= k < i ==> !re_match(
                #[trigger] cfg@.exclude_patterns[k],
                command@,
            ),
        decreases n - i,
    {
        let p: &String = &cfg.exclude_patterns[i];
        proof {
            assert(cfg@.exclude_patterns[i as int] == cfg.exclude_patterns@[i as int]@);
        }
        if regex_is_match(p.as_str(), command.as_str()) {
            return true;
        }
        i = i + 1;
    }
    false
}

/// The redaction stage: applies every replacement rule, in order, to the
/// command's body, and returns the newline-terminated result.
pub fn filter_command(cfg: &Config, command: &String) -> (r: String)
    requires
        command@.len() > 0 && command@.last() == '\n',
    ensures
        r@ == filter_spec(cfg@.replacements, command@),
{
    let ghost reps = cfg@.replacements;
    let n = command.as_str().unicode_len();
    let body = command.as_str().substring_char(0, n - 1);
    proof {
        assert(command@.subrange(0, n - 1) =~= command@.drop_last());
    }
    let mut cur: String = body.to_owned();
    let len = cfg.replacements.len();
    let mut i: usize = 0;
    proof {
        assert(reps.skip(0) =~= reps);
    }
    while i < len
        invariant
            0 <= i <= len,
            len == cfg.replacements@.len(),
            reps == cfg@.replacements,
            apply_replacements(reps, command@.drop_last()) == apply_replacements(
                reps.skip(i as int),
                cur@,
            ),
        decreases len - i,
    {
        let p: &String = &cfg.replacements[i].0;
        let rep: &String = &cfg.replacements[i].1;
        proof {
            assert(reps[i as int] == (cfg.replacements@[i as int].0@, cfg.replacements@[i as int].1@));
            assert(reps.skip(i as int)[0] == reps[i as int]);
            assert(reps.skip(i as int).skip(1) =~= reps.skip(i as int + 1));
        }
        cur = regex_replace_all(p.as_str(), cur.as_str(), rep.as_str());
        i = i + 1;
    }
    proof {
        assert(reps.skip(len as int) =~= Seq::<(Seq<char>, Seq<char>)>::empty());
    }
    cur.append("\n");
    proof {
        reveal_strlit("\n");
        assert("\n"@ =~= seq!['\n']);
        assert(cur@ =~= apply_replacements(reps, command@.drop_last()).push('\n'));
    }
    cur
}

/// The index of the first flag pattern that matches the command, if any.
fn find_flag_hit(cfg: &Config, command: &String) -> (r: Option<usize>)
    ensures
        match r {
            Option::Some(i) => i < cfg@.flag_patterns.len() && flag_hit(
                cfg@.flag_patterns,
                command@,
            ) == Option::Some(cfg@.flag_patterns[i as int]),
            Option::None => flag_hit(cfg@.flag_patterns, command@) is None,
        },
{
    let ghost pats = cfg@.flag_patterns;
    let n = cfg.flag_patterns.len();
    let mut i: usize = 0;
    proof {
        assert(pats.skip(0) =~= pats);
    }
    while i < n
        invariant
            0 <= i <= n,
            n == cfg.flag_patterns@.len(),
            pats == cfg@.flag_patterns,
            flag_hit(pats, command@) == flag_hit(pats.skip(i as int), command@),
        decreases n - i,
    {
        let p: &String = &cfg.flag_patterns[i];
        proof {
            assert(pats[i as int] == cfg.flag_patterns@[i as int]@);
            assert(pats.skip(i as int)[0] == pats[i as int]);
            assert(pats.skip(i as int).skip(1) =~= pats.skip(i as int + 1));
        }
        if regex_is_match(p.as_str(), command.as_str()) {
            return Option::Some(i);
        }
        i = i + 1;
    }
    proof {
        assert(pats.skip(n as int) =~= Seq::<Seq<char>>::empty());
    }
    Option::None
}

/// The flag stage: on the first flag pattern that matches, records the
/// diagnostic line (once) in `flagged`; output content is never affected.
pub fn flag_command(cfg: &Config, command: &String, flagged: &mut Vec<String>)
    ensures
        final(flagged).deep_view() == flag_step(
            cfg@.flag_patterns,
            old(flagged).deep_view(),
            command@,
        ),
{
    let ghost pats = cfg@.flag_patterns;
    match find_flag_hit(cfg, command) {
        Option::None => {},
        Option::Some(i) => {
            let p: &String = &cfg.flag_patterns[i];
            proof {
                assert(pats[i as int] == cfg.flag_patterns@[i as int]@);
            }
            let mut line = String::from_str("Flagged for '");
            line.append(p.as_str());
            line.append("': ");
            line.append(command.as_str());
            proof {
                assert(line@ == flag_text(pats[i as int], command@));
            }
            if !vec_contains_string(flagged, &line) {
                flagged.push(line);
                proof {
                    assert(final(flagged).deep_view() =~= old(flagged).deep_view().push(
                        flag_text(pats[i as int], command@),
                    ));
                }
            }
        },
    }
}

} // verus!
