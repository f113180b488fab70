//! Configuration: a flat key/value text format, one `key = "value"`
//! assignment per line, with blank lines and `#` comments skipped.
//!
//! Four keys are required — `discord_token`, `prefix`, `db_url`,
//! `redis_url` — and each may appear once. Unknown keys are ignored, a
//! repeated or malformed assignment rejects the file, and a missing
//! required key rejects it too: a malformed configuration is a fatal
//! startup error, never a guess. `render_config` writes the canonical
//! text of a configuration, and parsing that text yields the values back
//! bit for bit.

use vstd::prelude::*;

use crate::models::str_eq;

verus! {

/// Mathematical view of a configuration.
pub ghost struct ConfigView {
    pub discord_token: Seq<char>,
    pub prefix: Seq<char>,
    pub db_url: Seq<char>,
    pub redis_url: Seq<char>,
}

/// The runtime configuration: the chat-platform token, the command
/// prefix, and the two store connection URLs.
#[derive(Debug)]
pub struct Config {
    pub discord_token: String,
    pub prefix: String,
    pub db_url: String,
    pub redis_url: String,
}

impl View for Config {
    type V = ConfigView;

    open spec fn view(&self) -> ConfigView {
        ConfigView {
            discord_token: self.discord_token@,
            prefix: self.prefix@,
            db_url: self.db_url@,
            redis_url: self.redis_url@,
        }
    }
}

/// Index of the first occurrence of `c` in `s`, or -1.
pub open spec fn find_char(s: Seq<char>, c: char) -> int
    decreases s.len(),
{
    if s.len() == 0 {
        -1
    } else if s[0] == c {
        0
    } else {
        let r = find_char(s.drop_first(), c);
        if r == -1 {
            -1
        } else {
            r + 1
        }
    }
}

proof fn lemma_find_char_props(s: Seq<char>, c: char)
    ensures
        find_char(s, c) == -1 ==> forall|j: int| 0 <= j < s.len() ==> (#[trigger] s[j]) != c,
        find_char(s, c) != -1 ==> 0 <= find_char(s, c) < s.len() && s[find_char(s, c)] == c
            && forall|j: int| 0 <= j < find_char(s, c) ==> (#[trigger] s[j]) != c,
    decreases s.len(),
{
    if s.len() == 0 {
    } else if s[0] == c {
    } else {
        let rest = s.drop_first();
        lemma_find_char_props(rest, c);
        let rr = find_char(rest, c);
        if rr == -1 {
            assert forall|j: int| 0 <= j < s.len() implies (#[trigger] s[j]) != c by {
                if j > 0 {
                    assert(rest[j - 1] == s[j]);
                    assert(rest[j - 1] != c);
                }
            }
        } else {
            assert(find_char(s, c) == rr + 1);
            assert(s[rr + 1] == rest[rr]);
            assert forall|j: int| 0 <= j < rr + 1 implies (#[trigger] s[j]) != c by {
                if j > 0 {
                    assert(rest[j - 1] == s[j]);
                    assert(rest[j - 1] != c);
                }
            }
        }
    }
}

proof fn lemma_find_char_first(s: Seq<char>, c: char, i: int)
    requires
        0 <= i < s.len(),
        s[i] == c,
        forall|j: int| 0 <= j < i ==> (#[trigger] s[j]) != c,
    ensures
        find_char(s, c) == i,
{
    lemma_find_char_props(s, c);
    let r = find_char(s, c);
    if r == -1 {
        assert(s[i] != c);
        assert(false);
    } else if r < i {
        assert(s[r] != c);
        assert(false);
    } else if r > i {
        assert(s[i] != c);
        assert(false);
    }
}

proof fn lemma_find_char_none(s: Seq<char>, c: char)
    requires
        forall|j: int| 0 <= j < s.len() ==> (#[trigger] s[j]) != c,
    ensures
        find_char(s, c) == -1,
{
    lemma_find_char_props(s, c);
    let r = find_char(s, c);
    if r != -1 {
        assert(s[r] != c);
        assert(false);
    }
}

/// The lines of `s`: maximal `'\n'`-free stretches; a trailing newline
/// closes the last line rather than opening an empty one.
pub open spec fn split_lines(s: Seq<char>) -> Seq<Seq<char>>
    decreases s.len(),
{
    if s.len() == 0 {
        Seq::empty()
    } else {
        let i = find_char(s, '\n');
        if 0 <= i < s.len() {
            seq![s.take(i)] + split_lines(s.skip(i + 1))
        } else {
            seq![s]
        }
    }
}

/// Splitting takes the first newline-free stretch off the front.
proof fn lemma_split_first(s: Seq<char>, i: int)
    requires
        0 <= i < s.len(),
        s[i] == '\n',
        forall|j: int| 0 <= j < i ==> (#[trigger] s[j]) != '\n',
    ensures
        split_lines(s) == seq![s.take(i)] + split_lines(s.skip(i + 1)),
{
    lemma_find_char_first(s, '\n', i);
}

/// A newline-free text is one line (or none, when empty).
proof fn lemma_split_none(s: Seq<char>)
    requires
        forall|j: int| 0 <= j < s.len() ==> (#[trigger] s[j]) != '\n',
    ensures
        split_lines(s) == if s.len() == 0 {
            Seq::<Seq<char>>::empty()
        } else {
            seq![s]
        },
{
    if s.len() > 0 {
        lemma_find_char_none(s, '\n');
    }
}

/// Find the first occurrence of `c` in `s`, scanning left to right.
fn find_char_exec(s: &str, c: char) -> (r: Option<usize>)
    ensures
        match r {
            Some(i) => find_char(s@, c) == i as int,
            None => find_char(s@, c) == -1,
        },
{
    let n = s.unicode_len();
    let mut i: usize = 0;
    while i < n
        invariant
            i <= n,
            n == s@.len(),
            forall|j: int| 0 <= j < i ==> (#[trigger] s@[j]) != c,
        decreases n - i,
    {
        if s.get_char(i) == c {
            proof {
                lemma_find_char_first(s@, c, i as int);
            }
            return Some(i);
        }
        i = i + 1;
    }
    proof {
        lemma_find_char_none(s@, c);
    }
    None
}

/// Cut `s` into its lines.
fn split_lines_exec(s: &str) -> (r: Vec<String>)
    ensures
        r@.map_values(|l: String| l@) == split_lines(s@),
{
    let n = s.unicode_len();
    let mut out: Vec<String> = Vec::new();
    let mut start: usize = 0;
    let mut i: usize = 0;
    proof {
        assert(out@.map_values(|l: String| l@) =~= Seq::<Seq<char>>::empty());
        assert(s@.skip(0) =~= s@);
        assert(out@.map_values(|l: String| l@) + split_lines(s@) =~= split_lines(s@));
    }
    while i < n
        invariant
            start <= i <= n,
            n == s@.len(),
            split_lines(s@) == out@.map_values(|l: String| l@) + split_lines(
                s@.skip(start as int),
            ),
            forall|j: int| start <= j < i ==> (#[trigger] s@[j]) != '\n',
        decreases n - i,
    {
        if s.get_char(i) == '\n' {
            let line = s.substring_char(start, i).to_owned();
            let ghost prev = out@;
            out.push(line);
            proof {
                let tail = s@.skip(start as int);
                let off = i - start;
                assert forall|j: int| 0 <= j < off implies (#[trigger] tail[j]) != '\n' by {
                    assert(tail[j] == s@[start + j]);
                }
                assert(tail[off as int] == s@[i as int]);
                lemma_split_first(tail, off as int);
                assert(tail.take(off as int) =~= s@.subrange(start as int, i as int));
                assert(tail.skip(off + 1) =~= s@.skip(i + 1));
                assert(out@.map_values(|l: String| l@) =~= prev.map_values(|l: String| l@).push(
                    s@.subrange(start as int, i as int),
                ));
                assert(out@.map_values(|l: String| l@) + split_lines(s@.skip(i + 1))
                    =~= prev.map_values(|l: String| l@) + (seq![tail.take(off as int)]
                    + split_lines(tail.skip(off + 1))));
            }
            start = i + 1;
        }
        i = i + 1;
    }
    if start < n {
        let line = s.substring_char(start, n).to_owned();
        let ghost prev = out@;
        out.push(line);
        proof {
            let tail = s@.skip(start as int);
            assert forall|j: int| 0 <= j < tail.len() implies (#[trigger] tail[j]) != '\n' by {
                assert(tail[j] == s@[start + j]);
            }
            lemma_split_none(tail);
            assert(tail =~= s@.subrange(start as int, n as int));
            assert(out@.map_values(|l: String| l@) =~= prev.map_values(|l: String| l@).push(tail));
            assert(out@.map_values(|l: String| l@) =~= prev.map_values(|l: String| l@)
                + seq![tail]);
        }
    } else {
        proof {
            let tail = s@.skip(start as int);
            assert(tail.len() == 0);
            lemma_split_none(tail);
            assert(out@.map_values(|l: String| l@) + split_lines(tail) =~= out@.map_values(
                |l: String| l@,
            ));
        }
    }
    out
}

/// The text between a key and its value: one space, `=`, one space, and
/// the opening quote.
pub open spec fn sep_text() -> Seq<char> {
    seq![' ', '=', ' ', '"']
}

/// What closes an assignment when a line is rendered: the closing quote
/// and the line's newline.
pub open spec fn qend_text() -> Seq<char> {
    seq!['"', '\n']
}

/// One assignment line: `key = "value"`, without its newline.
pub open spec fn assignment_body(k: Seq<char>, v: Seq<char>) -> Seq<char> {
    k + sep_text() + v + seq!['"']
}

/// One rendered line: `key = "value"` and its newline.
pub open spec fn line_text(k: Seq<char>, v: Seq<char>) -> Seq<char> {
    k + sep_text() + v + qend_text()
}

/// What one line means: `Some((key, value))` for a well-formed
/// assignment — a nonempty unquoted key up to the first space, ` = "`,
/// then a quote-free value up to a closing quote that ends the line —
/// and `None` for anything else.
pub open spec fn parse_line_spec(s: Seq<char>) -> Option<(Seq<char>, Seq<char>)> {
    let i = find_char(s, ' ');
    if i < 1 {
        None
    } else if s.len() < i + 5 {
        None
    } else if s.subrange(i, i + 4) != sep_text() || s[s.len() - 1] != '"' {
        None
    } else {
        let key = s.take(i);
        let v = s.subrange(i + 4, s.len() - 1);
        if find_char(v, '"') != -1 || find_char(key, '"') != -1 {
            None
        } else {
            Some((key, v))
        }
    }
}

/// Read one assignment line.
fn parse_line(line: &str) -> (r: Option<(String, String)>)
    ensures
        match r {
            Some(p) => parse_line_spec(line@) == Some((p.0@, p.1@)),
            None => parse_line_spec(line@) is None,
        },
{
    let n = line.unicode_len();
    let sp = find_char_exec(line, ' ');
    match sp {
        None => None,
        Some(i) => {
            proof {
                lemma_find_char_props(line@, ' ');
            }
            if i == 0 {
                return None;
            }
            if n - i < 5 {
                return None;
            }
            let c1 = line.get_char(i + 1);
            let c2 = line.get_char(i + 2);
            let c3 = line.get_char(i + 3);
            let cl = line.get_char(n - 1);
            if c1 != '=' || c2 != ' ' || c3 != '"' || cl != '"' {
                proof {
                    if c1 == '=' && c2 == ' ' && c3 == '"' {
                        assert(line@[n - 1] != '"');
                    } else if line@.subrange(i as int, i + 4) == sep_text() {
                        assert(line@[i + 1] == line@.subrange(i as int, i + 4)[1]);
                        assert(line@[i + 2] == line@.subrange(i as int, i + 4)[2]);
                        assert(line@[i + 3] == line@.subrange(i as int, i + 4)[3]);
                        assert(sep_text()[1] == '=' && sep_text()[2] == ' ' && sep_text()[3]
                            == '"');
                        assert(false);
                    }
                }
                return None;
            }
            proof {
                assert(line@.subrange(i as int, i + 4) =~= sep_text());
            }
            let key = line.substring_char(0, i);
            let value = line.substring_char(i + 4, n - 1);
            proof {
                assert(key@ =~= line@.take(i as int));
                assert(value@ =~= line@.subrange(i + 4, line@.len() - 1));
            }
            match find_char_exec(value, '"') {
                Some(_) => None,
                None => match find_char_exec(key, '"') {
                    Some(_) => None,
                    None => Some((key.to_owned(), value.to_owned())),
                },
            }
        },
    }
}

/// The required keys gathered so far while reading a file.
pub ghost struct PartialConfig {
    pub discord_token: Option<Seq<char>>,
    pub prefix: Option<Seq<char>>,
    pub db_url: Option<Seq<char>>,
    pub redis_url: Option<Seq<char>>,
}

pub open spec fn empty_partial() -> PartialConfig {
    PartialConfig { discord_token: None, prefix: None, db_url: None, redis_url: None }
}

/// Blank lines and `#` comments carry no assignment.
pub open spec fn line_skipped(l: Seq<char>) -> bool {
    l.len() == 0 || l[0] == '#'
}

/// Record one assignment: a required key may be set once — setting it
/// again rejects the file — and any other key is ignored.
pub open spec fn set_key(p: PartialConfig, k: Seq<char>, v: Seq<char>) -> Option<PartialConfig> {
    if k == "discord_token"@ {
        if p.discord_token is Some {
            None
        } else {
            Some(PartialConfig { discord_token: Some(v), ..p })
        }
    } else if k == "prefix"@ {
        if p.prefix is Some {
            None
        } else {
            Some(PartialConfig { prefix: Some(v), ..p })
        }
    } else if k == "db_url"@ {
        if p.db_url is Some {
            None
        } else {
            Some(PartialConfig { db_url: Some(v), ..p })
        }
    } else if k == "redis_url"@ {
        if p.redis_url is Some {
            None
        } else {
            Some(PartialConfig { redis_url: Some(v), ..p })
        }
    } else {
        Some(p)
    }
}

/// What one line does to the gathered keys.
pub open spec fn apply_line(p: PartialConfig, l: Seq<char>) -> Option<PartialConfig> {
    if line_skipped(l) {
        Some(p)
    } else {
        match parse_line_spec(l) {
            None => None,
            Some(kv) => set_key(p, kv.0, kv.1),
        }
    }
}

/// Fold the lines over the gathered keys; a rejection is final.
pub open spec fn parse_lines(acc: Option<PartialConfig>, lines: Seq<Seq<char>>) -> Option<
    PartialConfig,
>
    decreases lines.len(),
{
    if lines.len() == 0 {
        acc
    } else {
        match acc {
            None => None,
            Some(p) => parse_lines(apply_line(p, lines.first()), lines.drop_first()),
        }
    }
}

/// What a whole file means: `Some` exactly when every line is blank, a
/// comment or a well-formed assignment, no required key repeats, and all
/// four required keys are present.
pub open spec fn parse_config_spec(s: Seq<char>) -> Option<ConfigView> {
    match parse_lines(Some(empty_partial()), split_lines(s)) {
        None => None,
        Some(p) => if p.discord_token is Some && p.prefix is Some && p.db_url is Some
            && p.redis_url is Some {
            Some(
                ConfigView {
                    discord_token: p.discord_token->0,
                    prefix: p.prefix->0,
                    db_url: p.db_url->0,
                    redis_url: p.redis_url->0,
                },
            )
        } else {
            None
        },
    }
}

pub open spec fn opt_view(o: Option<String>) -> Option<Seq<char>> {
    match o {
        Some(s) => Some(s@),
        None => None,
    }
}

/// Read a configuration file's text. `None` exactly when the text is
/// malformed or a required key is missing or repeated; on success the
/// returned values are the file's, character for character.
pub fn parse_config(s: &str) -> (r: Option<Config>)
    ensures
        r.is_some() == parse_config_spec(s@).is_some(),
        r matches Some(c) ==> parse_config_spec(s@) == Some(c@),
{
    let lines = split_lines_exec(s);
    let ghost all = split_lines(s@);
    let mut tok: Option<String> = None;
    let mut pre: Option<String> = None;
    let mut db: Option<String> = None;
    let mut red: Option<String> = None;
    let mut idx: usize = 0;
    proof {
        assert(all.skip(0) =~= all);
    }
    while idx < lines.len()
        invariant
            idx <= lines.len(),
            all == split_lines(s@),
            lines@.map_values(|l: String| l@) == all,
            lines@.len() == all.len(),
            parse_lines(Some(empty_partial()), all) == parse_lines(
                Some(
                    PartialConfig {
                        discord_token: opt_view(tok),
                        prefix: opt_view(pre),
                        db_url: opt_view(db),
                        redis_url: opt_view(red),
                    },
                ),
                all.skip(idx as int),
            ),
        decreases lines@.len() - idx,
    {
        let ghost p = PartialConfig {
            discord_token: opt_view(tok),
            prefix: opt_view(pre),
            db_url: opt_view(db),
            redis_url: opt_view(red),
        };
        let line: &String = &lines[idx];
        proof {
            assert(line@ == all[idx as int]);
            assert(all.skip(idx as int).first() == all[idx as int]);
            assert(all.skip(idx as int).drop_first() =~= all.skip(idx + 1));
            assert(parse_lines(Some(p), all.skip(idx as int)) == parse_lines(
                apply_line(p, all[idx as int]),
                all.skip(idx + 1),
            ));
        }
        let skipped = if line.as_str().is_empty() {
            true
        } else {
            line.as_str().get_char(0) == '#'
        };
        if !skipped {
            match parse_line(line.as_str()) {
                None => {
                    proof {
                        assert(apply_line(p, all[idx as int]) is None);
                    }
                    return None;
                },
                Some((k, v)) => {
                    if str_eq(k.as_str(), "discord_token") {
                        if tok.is_some() {
                            return None;
                        }
                        tok = Some(v);
                    } else if str_eq(k.as_str(), "prefix") {
                        if pre.is_some() {
                            return None;
                        }
                        pre = Some(v);
                    } else if str_eq(k.as_str(), "db_url") {
                        if db.is_some() {
                            return None;
                        }
                        db = Some(v);
                    } else if str_eq(k.as_str(), "redis_url") {
                        if red.is_some() {
                            return None;
                        }
                        red = Some(v);
                    }
                },
            }
        }
        idx = idx + 1;
    }
    proof {
        assert(all.skip(lines@.len() as int).len() == 0);
    }
    if let (Some(t), Some(p2), Some(d), Some(r2)) = (tok, pre, db, red) {
        Some(Config { discord_token: t, prefix: p2, db_url: d, redis_url: r2 })
    } else {
        None
    }
}

/// Write the canonical text of a configuration: the four assignments in
/// a fixed order, one per line.
pub open spec fn config_text(c: ConfigView) -> Seq<char> {
    line_text("discord_token"@, c.discord_token) + line_text("prefix"@, c.prefix) + line_text(
        "db_url"@,
        c.db_url,
    ) + line_text("redis_url"@, c.redis_url)
}

/// Render a configuration as its canonical file text.
pub fn render_config(c: &Config) -> (r: String)
    ensures
        r@ == config_text(c@),
{
    let mut out = String::new();
    out.append("discord_token");
    out.append(" = \"");
    out.append(c.discord_token.as_str());
    out.append("\"\n");
    out.append("prefix");
    out.append(" = \"");
    out.append(c.prefix.as_str());
    out.append("\"\n");
    out.append("db_url");
    out.append(" = \"");
    out.append(c.db_url.as_str());
    out.append("\"\n");
    out.append("redis_url");
    out.append(" = \"");
    out.append(c.redis_url.as_str());
    out.append("\"\n");
    proof {
        reveal_strlit(" = \"");
        reveal_strlit("\"\n");
        assert(" = \""@ =~= sep_text());
        assert("\"\n"@ =~= qend_text());
        assert(out@ =~= config_text(c@));
    }
    out
}

/// A key the grammar can carry: nonempty, not opening a comment, and
/// free of spaces, quotes and newlines.
pub open spec fn plain_key(k: Seq<char>) -> bool {
    &&& k.len() > 0
    &&& k[0] != '#'
    &&& forall|j: int|
        0 <= j < k.len() ==> (#[trigger] k[j]) != ' ' && k[j] != '"' && k[j] != '\n'
}

/// A value the grammar can carry: free of quotes and newlines.
pub open spec fn plain_value(v: Seq<char>) -> bool {
    forall|j: int| 0 <= j < v.len() ==> (#[trigger] v[j]) != '"' && v[j] != '\n'
}

/// A configuration whose canonical text the grammar can carry back.
pub open spec fn config_renderable(c: ConfigView) -> bool {
    plain_value(c.discord_token) && plain_value(c.prefix) && plain_value(c.db_url) && plain_value(
        c.redis_url,
    )
}

/// A rendered assignment line reads back as its own key and value.
proof fn lemma_body_parses(k: Seq<char>, v: Seq<char>)
    requires
        plain_key(k),
        plain_value(v),
    ensures
        parse_line_spec(assignment_body(k, v)) == Some((k, v)),
{
    let b = assignment_body(k, v);
    let kl = k.len() as int;
    assert(b.len() == kl + 4 + v.len() + 1);
    assert(b[kl] == sep_text()[0]);
    assert forall|j: int| 0 <= j < kl implies (#[trigger] b[j]) != ' ' by {
        assert(b[j] == k[j]);
    }
    lemma_find_char_first(b, ' ', kl);
    assert(b.subrange(kl, kl + 4) =~= sep_text());
    assert(b[b.len() - 1] == '"');
    assert(b.take(kl) =~= k);
    assert(b.subrange(kl + 4, b.len() - 1) =~= v);
    assert forall|j: int| 0 <= j < v.len() implies (#[trigger] v[j]) != '"' by {}
    lemma_find_char_none(v, '"');
    assert forall|j: int| 0 <= j < k.len() implies (#[trigger] k[j]) != '"' by {}
    lemma_find_char_none(k, '"');
}

/// Splitting a rendered line off the front of a file.
proof fn lemma_split_line_prefix(k: Seq<char>, v: Seq<char>, rest: Seq<char>)
    requires
        plain_key(k),
        plain_value(v),
    ensures
        split_lines(line_text(k, v) + rest) == seq![assignment_body(k, v)] + split_lines(rest),
{
    let t = line_text(k, v) + rest;
    let kl = k.len() as int;
    let bl = kl + 4 + v.len() as int + 1;
    assert(line_text(k, v).len() == bl + 1);
    assert forall|j: int| 0 <= j < bl implies (#[trigger] t[j]) != '\n' by {
        if j < kl {
            assert(t[j] == k[j]);
        } else if j < kl + 4 {
            assert(t[j] == sep_text()[j - kl]);
            assert(sep_text()[0] != '\n' && sep_text()[1] != '\n' && sep_text()[2] != '\n'
                && sep_text()[3] != '\n');
        } else if j < bl - 1 {
            assert(t[j] == v[j - kl - 4]);
        } else {
            assert(t[j] == qend_text()[0]);
            assert(qend_text()[0] == '"');
        }
    }
    assert(t[bl] == qend_text()[1]);
    assert(qend_text()[1] == '\n');
    lemma_split_first(t, bl);
    assert(t.take(bl) =~= assignment_body(k, v));
    assert(t.skip(bl + 1) =~= rest);
}

/// The four required keys fit the grammar and differ pairwise.
proof fn lemma_key_facts()
    ensures
        plain_key("discord_token"@),
        plain_key("prefix"@),
        plain_key("db_url"@),
        plain_key("redis_url"@),
        "prefix"@ != "discord_token"@,
        "db_url"@ != "discord_token"@,
        "db_url"@ != "prefix"@,
        "redis_url"@ != "discord_token"@,
        "redis_url"@ != "prefix"@,
        "redis_url"@ != "db_url"@,
{
    reveal_strlit("discord_token");
    reveal_strlit("prefix");
    reveal_strlit("db_url");
    reveal_strlit("redis_url");
    assert("discord_token"@ =~= seq![
        'd',
        'i',
        's',
        'c',
        'o',
        'r',
        'd',
        '_',
        't',
        'o',
        'k',
        'e',
        'n',
    ]);
    assert("prefix"@ =~= seq!['p', 'r', 'e', 'f', 'i', 'x']);
    assert("db_url"@ =~= seq!['d', 'b', '_', 'u', 'r', 'l']);
    assert("redis_url"@ =~= seq!['r', 'e', 'd', 'i', 's', '_', 'u', 'r', 'l']);
    assert("db_url"@[0] != "prefix"@[0]);
    assert("redis_url"@.len() != "discord_token"@.len());
    assert("redis_url"@.len() != "prefix"@.len());
    assert("redis_url"@.len() != "db_url"@.len());
}

/// A well-formed configuration file round-trips: the canonical text of a
/// renderable configuration is accepted, and the values read back are the
/// rendered ones, character for character. (A value holding a quote or a
/// newline has no canonical line, which is why renderability is asked.)
#[verifier::rlimit(60)]
pub proof fn lemma_config_roundtrip(c: ConfigView)
    requires
        config_renderable(c),
    ensures
        parse_config_spec(config_text(c)) == Some(c),
{
    lemma_key_facts();
    let k1 = "discord_token"@;
    let k2 = "prefix"@;
    let k3 = "db_url"@;
    let k4 = "redis_url"@;
    let l1 = line_text(k1, c.discord_token);
    let l2 = line_text(k2, c.prefix);
    let l3 = line_text(k3, c.db_url);
    let l4 = line_text(k4, c.redis_url);
    let b1 = assignment_body(k1, c.discord_token);
    let b2 = assignment_body(k2, c.prefix);
    let b3 = assignment_body(k3, c.db_url);
    let b4 = assignment_body(k4, c.redis_url);
    let t = config_text(c);
    assert(t =~= l1 + (l2 + (l3 + (l4 + Seq::<char>::empty()))));
    lemma_split_line_prefix(k1, c.discord_token, l2 + (l3 + (l4 + Seq::<char>::empty())));
    lemma_split_line_prefix(k2, c.prefix, l3 + (l4 + Seq::<char>::empty()));
    lemma_split_line_prefix(k3, c.db_url, l4 + Seq::<char>::empty());
    assert(l4 + Seq::<char>::empty() =~= l4 + Seq::<char>::empty());
    lemma_split_line_prefix(k4, c.redis_url, Seq::<char>::empty());
    lemma_split_none(Seq::<char>::empty());
    let lines = split_lines(t);
    assert(lines =~= seq![b1, b2, b3, b4]);
    lemma_body_parses(k1, c.discord_token);
    lemma_body_parses(k2, c.prefix);
    lemma_body_parses(k3, c.db_url);
    lemma_body_parses(k4, c.redis_url);
    assert(b1[0] == k1[0]);
    assert(b2[0] == k2[0]);
    assert(b3[0] == k3[0]);
    assert(b4[0] == k4[0]);
    assert(!line_skipped(b1) && !line_skipped(b2) && !line_skipped(b3) && !line_skipped(b4));
    let p0 = empty_partial();
    let p1 = PartialConfig { discord_token: Some(c.discord_token), ..p0 };
    let p2 = PartialConfig { prefix: Some(c.prefix), ..p1 };
    let p3 = PartialConfig { db_url: Some(c.db_url), ..p2 };
    let p4 = PartialConfig { redis_url: Some(c.redis_url), ..p3 };
    assert(apply_line(p0, b1) == Some(p1));
    assert(apply_line(p1, b2) == Some(p2));
    assert(apply_line(p2, b3) == Some(p3));
    assert(apply_line(p3, b4) == Some(p4));
    assert(lines.first() == b1);
    assert(lines.drop_first() =~= seq![b2, b3, b4]);
    assert(seq![b2, b3, b4].drop_first() =~= seq![b3, b4]);
    assert(seq![b3, b4].drop_first() =~= seq![b4]);
    assert(seq![b4].drop_first() =~= Seq::<Seq<char>>::empty());
    reveal_with_fuel(parse_lines, 6);
    assert(parse_lines(Some(p4), Seq::<Seq<char>>::empty()) == Some(p4));
    assert(parse_lines(Some(p3), seq![b4]) == Some(p4));
    assert(parse_lines(Some(p2), seq![b3, b4]) == Some(p4));
    assert(parse_lines(Some(p1), seq![b2, b3, b4]) == Some(p4));
    assert(parse_lines(Some(p0), lines) == Some(p4));
}

} // verus!
