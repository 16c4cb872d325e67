use crate::text::chars_of;
use vstd::prelude::*;
use vstd::string::{StrSliceExecFns, StringExecFns};

verus! {

/// Where the mirror is, and who asks.
#[derive(Clone, Debug, PartialEq, Eq)]
pub struct DBConfig {
    pub host: String,
    pub username: String,
    pub password: String,
}

/// Why a configuration text gives no configuration.
#[derive(Clone, Copy, Debug, PartialEq, Eq)]
pub enum ConfigError {
    /// A line that is no comment holds more than one `=`.
    MalformedLine,
    /// No line sets `host`.
    MissingHost,
    /// No line sets `user`.
    MissingUser,
    /// No line sets `password`.
    MissingPassword,
}

/// What the lines read so far have set.
pub struct Settings {
    pub host: Option<Seq<char>>,
    pub username: Option<Seq<char>>,
    pub password: Option<Seq<char>>,
}

/// Whether the character is white space.
pub open spec fn is_space(c: char) -> bool {
    let code = c as u32;
    ||| 0x09 <= code <= 0x0d
    ||| code == 0x20
    ||| code == 0x85
    ||| code == 0xa0
    ||| code == 0x1680
    ||| 0x2000 <= code <= 0x200a
    ||| code == 0x2028
    ||| code == 0x2029
    ||| code == 0x202f
    ||| code == 0x205f
    ||| code == 0x3000
}

/// The text without the white space at its end.
pub open spec fn trimmed_end(text: Seq<char>) -> Seq<char>
    decreases text.len(),
{
    if text.len() > 0 && is_space(text.last()) {
        trimmed_end(text.drop_last())
    } else {
        text
    }
}

/// The position of the first `c` in the text; the length of the text if
/// there is none.
pub open spec fn first_at(text: Seq<char>, c: char) -> int
    decreases text.len(),
{
    if text.len() == 0 || text[0] == c {
        0
    } else {
        1 + first_at(text.skip(1), c)
    }
}

/// How often `c` stands in the text.
pub open spec fn count_of(text: Seq<char>, c: char) -> nat
    decreases text.len(),
{
    if text.len() == 0 {
        0
    } else if text.last() == c {
        count_of(text.drop_last(), c) + 1
    } else {
        count_of(text.drop_last(), c)
    }
}

/// The first line of a text that is not empty: what stands before the
/// first line feed, without a carriage return right before that line feed.
pub open spec fn first_line(text: Seq<char>) -> Seq<char> {
    let end = first_at(text, '\n');
    if end < text.len() && end > 0 && text[end - 1] == '\r' {
        text.subrange(0, end - 1)
    } else {
        text.subrange(0, end)
    }
}

/// What follows the first line of a text that is not empty.
pub open spec fn after_first_line(text: Seq<char>) -> Seq<char> {
    let end = first_at(text, '\n');
    if end < text.len() {
        text.skip(end + 1)
    } else {
        text.skip(end)
    }
}

/// The settings after one more line. A line that starts with `#` is a
/// comment. A line without `=` says nothing. A line with one `=` sets what
/// stands before it, if that is `host`, `user` or `password`, to what stands
/// behind it, without the white space at the end. Any other line is
/// malformed, which is `None`.
pub open spec fn read_line(settings: Settings, line: Seq<char>) -> Option<Settings> {
    if line.len() > 0 && line[0] == '#' {
        Some(settings)
    } else if count_of(line, '=') == 0 {
        Some(settings)
    } else if count_of(line, '=') != 1 {
        None
    } else {
        let at = first_at(line, '=');
        let key = line.subrange(0, at);
        let value = trimmed_end(line.skip(at + 1));
        if key == "host"@ {
            Some(Settings { host: Some(value), ..settings })
        } else if key == "user"@ {
            Some(Settings { username: Some(value), ..settings })
        } else if key == "password"@ {
            Some(Settings { password: Some(value), ..settings })
        } else {
            Some(settings)
        }
    }
}

/// What the settings are worth once all lines are read.
pub open spec fn settled(settings: Settings) -> Result<Settings, ConfigError> {
    if settings.host is None {
        Err(ConfigError::MissingHost)
    } else if settings.username is None {
        Err(ConfigError::MissingUser)
    } else if settings.password is None {
        Err(ConfigError::MissingPassword)
    } else {
        Ok(settings)
    }
}

/// What the text gives, read line by line on top of the settings. The
/// first malformed line ends the reading; a later line on the same name
/// replaces an earlier one.
pub open spec fn read_lines(settings: Settings, text: Seq<char>) -> Result<Settings, ConfigError>
    decreases text.len(),
{
    if text.len() == 0 {
        settled(settings)
    } else {
        match read_line(settings, first_line(text)) {
            None => Err(ConfigError::MalformedLine),
            Some(next) => {
                proof {
                    first_at_in_range(text, '\n');
                }
                read_lines(next, after_first_line(text))
            },
        }
    }
}

/// What a configuration text gives.
pub open spec fn parsed(text: Seq<char>) -> Result<Settings, ConfigError> {
    read_lines(Settings { host: None, username: None, password: None }, text)
}

/// Whether the configuration is the one that the settings describe.
pub open spec fn is_config(config: DBConfig, settings: Settings) -> bool {
    &&& settings.host == Some(config.host@)
    &&& settings.username == Some(config.username@)
    &&& settings.password == Some(config.password@)
}

/// `first_at` is a position of the text or its length; no `c` stands
/// before it, and `c` stands at it if it is a position.
pub proof fn first_at_in_range(text: Seq<char>, c: char)
    ensures
        0 <= first_at(text, c) <= text.len(),
        forall|k: int| 0 <= k < first_at(text, c) ==> text[k] != c,
        first_at(text, c) < text.len() ==> text[first_at(text, c)] == c,
    decreases text.len(),
{
    if text.len() > 0 && text[0] != c {
        first_at_in_range(text.skip(1), c);
        assert forall|k: int| 0 <= k < first_at(text, c) implies text[k] != c by {
            if k > 0 {
                assert(text.skip(1)[k - 1] != c);
            }
        }
    }
}

/// A character that a text holds stands at `first_at` or before.
proof fn counted_is_found(text: Seq<char>, c: char)
    requires
        count_of(text, c) > 0,
    ensures
        first_at(text, c) < text.len(),
    decreases text.len(),
{
    first_at_in_range(text, c);
    if text.last() != c {
        counted_is_found(text.drop_last(), c);
        first_at_in_range(text.drop_last(), c);
        let at = first_at(text.drop_last(), c);
        assert(text[at] == text.drop_last()[at]);
    }
}

/// A position that holds `c` with no `c` before it, or the length where
/// the text holds no `c`, is `first_at`.
proof fn first_at_is_first(text: Seq<char>, c: char, at: int)
    requires
        0 <= at <= text.len(),
        forall|k: int| 0 <= k < at ==> text[k] != c,
        at < text.len() ==> text[at] == c,
    ensures
        first_at(text, c) == at,
    decreases text.len(),
{
    if text.len() > 0 && text[0] != c {
        assert forall|k: int| 0 <= k < at - 1 implies text.skip(1)[k] != c by {
            assert(text[k + 1] != c);
        }
        first_at_is_first(text.skip(1), c, at - 1);
    }
}

/// Whether the character is white space.
pub fn is_whitespace(c: char) -> (r: bool)
    ensures
        r == is_space(c),
{
    let code = c as u32;
    (0x09 <= code && code <= 0x0d) || code == 0x20 || code == 0x85 || code == 0xa0 || code == 0x1680
        || (0x2000 <= code && code <= 0x200a) || code == 0x2028 || code == 0x2029 || code == 0x202f
        || code == 0x205f || code == 0x3000
}

/// The position of the first `c` in the part of the text from `from` to
/// `to`; `to` if there is none.
fn find_char(text: &Vec<char>, from: usize, to: usize, c: char) -> (r: usize)
    requires
        from <= to <= text.len(),
    ensures
        from <= r <= to,
        r - from == first_at(text@.subrange(from as int, to as int), c),
{
    let mut at = from;
    while at < to && text[at] != c
        invariant
            from <= at <= to <= text.len(),
            forall|k: int| from <= k < at ==> text@[k] != c,
        decreases to - at,
    {
        at += 1;
    }
    proof {
        first_at_is_first(text@.subrange(from as int, to as int), c, at - from);
    }
    at
}

/// How often `c` stands in the part of the text from `from` to `to`.
fn count_char(text: &Vec<char>, from: usize, to: usize, c: char) -> (r: usize)
    requires
        from <= to <= text.len(),
    ensures
        r == count_of(text@.subrange(from as int, to as int), c),
{
    let mut count: usize = 0;
    let mut at = from;
    while at < to
        invariant
            from <= at <= to <= text.len(),
            count == count_of(text@.subrange(from as int, at as int), c),
            count <= at - from,
        decreases to - at,
    {
        assert(text@.subrange(from as int, at + 1).drop_last() =~= text@.subrange(
            from as int,
            at as int,
        ));
        if text[at] == c {
            count += 1;
        }
        at += 1;
    }
    count
}

/// The end of the part of the text from `from` to `to` without the white
/// space at its end.
fn trim_end(text: &Vec<char>, from: usize, to: usize) -> (r: usize)
    requires
        from <= to <= text.len(),
    ensures
        from <= r <= to,
        text@.subrange(from as int, r as int)
            == trimmed_end(text@.subrange(from as int, to as int)),
{
    let mut end = to;
    while end > from && is_whitespace(text[end - 1])
        invariant
            from <= end <= to <= text.len(),
            trimmed_end(text@.subrange(from as int, end as int)) == trimmed_end(
                text@.subrange(from as int, to as int),
            ),
        decreases end,
    {
        assert(text@.subrange(from as int, end as int).drop_last() =~= text@.subrange(
            from as int,
            end - 1,
        ));
        end -= 1;
    }
    end
}

/// Whether the part of the text from `from` to `to` is the word.
fn is_word(text: &Vec<char>, from: usize, to: usize, word: &str) -> (r: bool)
    requires
        from <= to <= text.len(),
    ensures
        r == (text@.subrange(from as int, to as int) == word@),
{
    let letters = chars_of(word);
    if letters.len() != to - from {
        return false;
    }
    let mut k: usize = 0;
    while k < letters.len()
        invariant
            k <= letters.len(),
            from <= to <= text.len(),
            letters.len() == to - from,
            letters@ == word@,
            forall|x: int| 0 <= x < k ==> text@[from + x] == letters@[x],
        decreases letters.len() - k,
    {
        if text[from + k] != letters[k] {
            assert(text@.subrange(from as int, to as int)[k as int] != letters@[k as int]);
            return false;
        }
        k += 1;
    }
    assert(text@.subrange(from as int, to as int) =~= letters@);
    true
}

/// The settings of the three options, as models.
spec fn settings_of(host: Option<String>, username: Option<String>, password: Option<String>)
    -> Settings {
    Settings {
        host: match host {
            Some(s) => Some(s@),
            None => None,
        },
        username: match username {
            Some(s) => Some(s@),
            None => None,
        },
        password: match password {
            Some(s) => Some(s@),
            None => None,
        },
    }
}

impl DBConfig {
    /// A configuration of these three.
    pub fn new(host: String, username: String, password: String) -> (r: DBConfig)
        ensures
            r == (DBConfig { host, username, password }),
    {
        DBConfig { host, username, password }
    }

    /// Reads a configuration text: lines of the form `name=value`, where
    /// the names `host`, `user` and `password` count, and lines that start
    /// with `#` are comments.
    pub fn from_config_file(file_contents: &str) -> (r: Result<DBConfig, ConfigError>)
        ensures
            match r {
                Ok(config) => parsed(file_contents@) is Ok && is_config(
                    config,
                    parsed(file_contents@)->Ok_0,
                ),
                Err(error) => parsed(file_contents@) == Err::<Settings, ConfigError>(error),
            },
    {
        let text = chars_of(file_contents);
        let n = text.len();
        let mut host: Option<String> = None;
        let mut username: Option<String> = None;
        let mut password: Option<String> = None;
        let mut start: usize = 0;
        assert(text@.skip(0) =~= text@);
        while start < n
            invariant
                start <= n,
                n == text.len(),
                text@ == file_contents@,
                parsed(file_contents@) == read_lines(
                    settings_of(host, username, password),
                    text@.skip(start as int),
                ),
            decreases n - start,
        {
            let ghost rest = text@.skip(start as int);
            let ghost before = settings_of(host, username, password);
            assert(rest =~= text@.subrange(start as int, n as int));
            let feed = find_char(&text, start, n, '\n');
            let end = if feed < n && feed > start && text[feed - 1] == '\r' {
                feed - 1
            } else {
                feed
            };
            let next = if feed < n {
                feed + 1
            } else {
                feed
            };
            let ghost line = text@.subrange(start as int, end as int);
            proof {
                assert(first_line(rest) =~= line);
                assert(after_first_line(rest) =~= text@.skip(next as int));
            }
            if !(end > start && text[start] == '#') {
                let marks = count_char(&text, start, end, '=');
                if marks > 1 {
                    return Err(ConfigError::MalformedLine);
                }
                if marks == 1 {
                    let at = find_char(&text, start, end, '=');
                    proof {
                        counted_is_found(line, '=');
                    }
                    let stop = trim_end(&text, at + 1, end);
                    proof {
                        assert(line.subrange(0, at - start) =~= text@.subrange(
                            start as int,
                            at as int,
                        ));
                        assert(line.skip(at - start + 1) =~= text@.subrange(at + 1, end as int));
                    }
                    let value = String::from_str(file_contents.substring_char(at + 1, stop));
                    if is_word(&text, start, at, "host") {
                        host = Some(value);
                    } else if is_word(&text, start, at, "user") {
                        username = Some(value);
                    } else if is_word(&text, start, at, "password") {
                        password = Some(value);
                    }
                }
            }
            assert(read_line(before, line) == Some(settings_of(host, username, password)));
            start = next;
        }
        match host {
            None => Err(ConfigError::MissingHost),
            Some(host) => match username {
                None => Err(ConfigError::MissingUser),
                Some(username) => match password {
                    None => Err(ConfigError::MissingPassword),
                    Some(password) => Ok(DBConfig::new(host, username, password)),
                },
            },
        }
    }

    /// The address under which the mirror of this user is reached.
    pub fn connection_url(&self) -> (r: String)
        ensures
            r@ == "mysql://"@ + self.username@ + ":"@ + self.password@ + "@"@ + self.host@ + "/"@
                + self.username@ + "_experiments"@,
    {
        let mut url = String::from_str("mysql://");
        url.append(self.username.as_str());
        url.append(":");
        url.append(self.password.as_str());
        url.append("@");
        url.append(self.host.as_str());
        url.append("/");
        url.append(self.username.as_str());
        url.append("_experiments");
        url
    }
}

/// What to do after an attempt to reach the mirror.
#[derive(Clone, Copy, Debug, PartialEq, Eq)]
pub enum ConnectStep {
    /// The mirror is reached: go on.
    Proceed,
    /// Wait this many milliseconds, then try again.
    RetryAfter { millis: u64 },
    /// Enough attempts have failed: stop.
    GiveUp,
}

/// The wait between two attempts to reach the mirror, in milliseconds.
pub const RETRY_DELAY_MILLIS: u64 = 4000;

/// How often the mirror is tried, and how long the wait between two
/// attempts is. The wait does not grow.
#[derive(Clone, Copy, Debug, PartialEq, Eq)]
pub struct RetryPolicy {
    /// The number of failed attempts after which no more is made; `None`
    /// for no end.
    pub max_attempts: Option<u64>,
    /// The wait between two attempts, in milliseconds.
    pub delay_millis: u64,
}

impl RetryPolicy {
    /// The policy that tries for ever, with the usual wait.
    pub open spec fn unending() -> RetryPolicy {
        RetryPolicy { max_attempts: None, delay_millis: RETRY_DELAY_MILLIS }
    }

    /// What to do after the attempt number `attempts`, counted from 1,
    /// which reached the mirror or did not.
    pub open spec fn step(self, attempts: u64, reached: bool) -> ConnectStep {
        if reached {
            ConnectStep::Proceed
        } else if self.max_attempts matches Some(most) && attempts >= most {
            ConnectStep::GiveUp
        } else {
            ConnectStep::RetryAfter { millis: self.delay_millis }
        }
    }

    /// The policy that tries for ever, with the usual wait.
    pub fn forever() -> (r: RetryPolicy)
        ensures
            r == RetryPolicy::unending(),
    {
        RetryPolicy { max_attempts: None, delay_millis: RETRY_DELAY_MILLIS }
    }

    /// What to do after the attempt number `attempts`, counted from 1,
    /// which reached the mirror or did not.
    pub fn after_attempt(&self, attempts: u64, reached: bool) -> (r: ConnectStep)
        ensures
            r == self.step(attempts, reached),
    {
        if reached {
            ConnectStep::Proceed
        } else {
            match self.max_attempts {
                Some(most) => if attempts >= most {
                    ConnectStep::GiveUp
                } else {
                    ConnectStep::RetryAfter { millis: self.delay_millis }
                },
                None => ConnectStep::RetryAfter { millis: self.delay_millis },
            }
        }
    }
}

/// The policy that tries for ever never gives up: after every failed
/// attempt it tries again, after the same wait.
pub proof fn unending_never_gives_up(attempts: u64)
    ensures
        RetryPolicy::unending().step(attempts, false) == (ConnectStep::RetryAfter {
            millis: RETRY_DELAY_MILLIS,
        }),
        RetryPolicy::unending().step(attempts, true) == ConnectStep::Proceed,
{
}

} // verus!
