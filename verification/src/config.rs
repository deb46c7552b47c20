//! Configuration: lines of `key=value`, in a file of the repository and in a
//! file of the user.
use crate::error::RepoError;
use crate::scan::{lines_of, split_lines, trim, trimmed};
use crate::table::{last_value, lookup, pairs};
use crate::text::{
    append_chars, chars_to_string, copy_chars, decode_text, find_char, first_index, same_chars,
    string_chars, sub_chars,
};
use vstd::prelude::*;
use vstd::utf8::{decode_utf8, valid_utf8};

verus! {

/// The configuration: the bytes of the repository's file and of the user's
/// file, each `None` where there is no such file.
#[derive(Debug, Clone, PartialEq, Eq)]
pub struct Config {
    pub repo_config: Option<Vec<u8>>,
    pub global_config: Option<Vec<u8>>,
}

/// The key and the value on a line, both without white space around them. A
/// line that is empty, starts with `#` or has no `=` holds none; the key ends
/// at the first `=`.
pub open spec fn config_line(line: Seq<char>) -> Option<(Seq<char>, Seq<char>)> {
    let t = trimmed(line);
    let k = first_index(t, '=');
    if t.len() == 0 || t[0] == '#' || k >= t.len() {
        None
    } else {
        Some((trimmed(t.take(k)), trimmed(t.skip(k + 1))))
    }
}

/// The keys and values on the lines `lines`, in their order.
pub open spec fn config_pairs(lines: Seq<Seq<char>>) -> Seq<(Seq<char>, Seq<char>)>
    decreases lines.len(),
{
    if lines.len() == 0 {
        Seq::empty()
    } else {
        match config_line(lines.last()) {
            Some(pair) => config_pairs(lines.drop_last()).push(pair),
            None => config_pairs(lines.drop_last()),
        }
    }
}

/// `map` with `value` for `key`: in the place of the first pair with that key,
/// or at the end if there is none.
pub open spec fn put(map: Seq<(Seq<char>, Seq<char>)>, key: Seq<char>, value: Seq<char>) -> Seq<
    (Seq<char>, Seq<char>),
>
    decreases map.len(),
{
    if map.len() == 0 {
        seq![(key, value)]
    } else if map[0].0 == key {
        seq![(key, value)] + map.drop_first()
    } else {
        seq![map[0]] + put(map.drop_first(), key, value)
    }
}

/// The pairs read as a map: each key once, where it came first, with the value
/// that came last.
pub open spec fn compact(list: Seq<(Seq<char>, Seq<char>)>) -> Seq<(Seq<char>, Seq<char>)>
    decreases list.len(),
{
    if list.len() == 0 {
        Seq::empty()
    } else {
        put(compact(list.drop_last()), list.last().0, list.last().1)
    }
}

/// The keys and values of a file: none without a file, an error if the file is
/// not text.
pub open spec fn file_pairs(file: Option<Seq<u8>>) -> Result<
    Seq<(Seq<char>, Seq<char>)>,
    RepoError,
> {
    match file {
        None => Ok(Seq::empty()),
        Some(bytes) => if valid_utf8(bytes) {
            Ok(config_pairs(lines_of(decode_utf8(bytes))))
        } else {
            Err(RepoError::InvalidConfig)
        },
    }
}

/// The value of `key`: that of the repository's file if it has one, else that of
/// the user's file. The user's file is read only if the repository's has none.
pub open spec fn config_value(
    repo: Option<Seq<u8>>,
    global: Option<Seq<u8>>,
    key: Seq<char>,
) -> Result<Option<Seq<char>>, RepoError> {
    match file_pairs(repo) {
        Err(e) => Err(e),
        Ok(rp) => match last_value(rp, key) {
            Some(v) => Ok(Some(v)),
            None => match file_pairs(global) {
                Err(e) => Err(e),
                Ok(gp) => Ok(last_value(gp, key)),
            },
        },
    }
}

/// The pairs `list` with `global.` in front of every key.
pub open spec fn prefixed(list: Seq<(Seq<char>, Seq<char>)>) -> Seq<(Seq<char>, Seq<char>)> {
    Seq::new(list.len(), |i: int| (global_prefix() + list[i].0, list[i].1))
}

/// What stands in front of the keys of the user's file in a listing.
pub open spec fn global_prefix() -> Seq<char> {
    seq!['g', 'l', 'o', 'b', 'a', 'l', '.']
}

/// The lines `key=value` for the pairs of `map`, one after the other.
pub open spec fn rendered(map: Seq<(Seq<char>, Seq<char>)>) -> Seq<char>
    decreases map.len(),
{
    if map.len() == 0 {
        Seq::empty()
    } else {
        rendered(map.drop_last()) + map.last().0 + seq!['='] + map.last().1 + seq!['\n']
    }
}

/// Every key with its value: the keys of the user's file with `global.` in
/// front, then the keys of the repository's file, read together as a map.
pub open spec fn listed(repo: Option<Seq<u8>>, global: Option<Seq<u8>>) -> Result<
    Seq<(Seq<char>, Seq<char>)>,
    RepoError,
> {
    match file_pairs(global) {
        Err(e) => Err(e),
        Ok(gp) => match file_pairs(repo) {
            Err(e) => Err(e),
            Ok(rp) => Ok(compact(prefixed(gp) + rp)),
        },
    }
}

/// The text of a file after `key` has been set to `value` in it: the file is
/// read as a map, the value put in the place of the key or at the end, and
/// the map written out as lines `key=value`.
pub open spec fn text_after_set(file: Option<Seq<u8>>, key: Seq<char>, value: Seq<char>) -> Result<
    Seq<char>,
    RepoError,
> {
    match file_pairs(file) {
        Err(e) => Err(e),
        Ok(list) => Ok(rendered(put(compact(list), key, value))),
    }
}

/// What an optional file holds.
pub open spec fn file_view(file: Option<Vec<u8>>) -> Option<Seq<u8>> {
    match file {
        Some(bytes) => Some(bytes@),
        None => None,
    }
}

/// What a list of pairs of strings holds.
pub open spec fn string_pairs(list: Seq<(String, String)>) -> Seq<(Seq<char>, Seq<char>)> {
    Seq::new(list.len(), |i: int| (list[i].0@, list[i].1@))
}

/// Reads the key and the value of one line.
fn read_pair(line: &Vec<char>) -> (r: Option<(Vec<char>, Vec<char>)>)
    ensures
        match r {
            Some(pair) => config_line(line@) == Some((pair.0@, pair.1@)),
            None => config_line(line@) is None,
        },
{
    let t = trim(line);
    if t.len() == 0 || t[0] == '#' {
        return None;
    }
    let k = find_char(&t, 0, '=');
    assert(t@.skip(0) =~= t@);
    if k == t.len() {
        return None;
    }
    let key = trim(&sub_chars(&t, 0, k));
    let value = trim(&sub_chars(&t, k + 1, t.len()));
    assert(t@.subrange(0, k as int) =~= t@.take(k as int));
    assert(t@.subrange(k + 1, t@.len() as int) =~= t@.skip(k + 1));
    Some((key, value))
}

/// Reads the keys and values of a text, in their order.
fn read_pairs(text: &Vec<char>) -> (r: Vec<(Vec<char>, Vec<char>)>)
    ensures
        pairs(r@) == config_pairs(lines_of(text@)),
{
    let lines = split_lines(text);
    let ghost all = lines_of(text@);
    let mut r: Vec<(Vec<char>, Vec<char>)> = Vec::new();
    let mut i: usize = 0;
    assert(pairs(r@) =~= config_pairs(all.take(0)));
    while i < lines.len()
        invariant
            i <= lines.len(),
            all == lines_of(text@),
            lines@.len() == all.len(),
            forall|j: int| 0 <= j < lines@.len() ==> (#[trigger] lines@[j])@ == all[j],
            pairs(r@) == config_pairs(all.take(i as int)),
        decreases lines.len() - i,
    {
        let ghost before = pairs(r@);
        let ghost part = all.take(i + 1);
        assert(part.drop_last() =~= all.take(i as int));
        assert(part.last() == all[i as int]);
        match read_pair(&lines[i]) {
            Some(pair) => {
                let ghost pv = (pair.0@, pair.1@);
                r.push(pair);
                assert(pairs(r@) =~= before.push(pv));
            },
            None => {},
        }
        i += 1;
    }
    assert(all.take(i as int) =~= all);
    r
}

/// Puts `value` for `key` into a list read as a map.
fn put_pair(map: &mut Vec<(Vec<char>, Vec<char>)>, key: Vec<char>, value: Vec<char>)
    ensures
        pairs(final(map)@) == put(pairs(old(map)@), key@, value@),
{
    let ghost start = pairs(map@);
    let mut i: usize = 0;
    assert(start.skip(0) =~= start);
    assert(start.take(0) + put(start, key@, value@) =~= put(start, key@, value@));
    while i < map.len()
        invariant
            i <= map.len(),
            map@ == old(map)@,
            start == pairs(map@),
            put(start, key@, value@) == start.take(i as int) + put(
                start.skip(i as int),
                key@,
                value@,
            ),
        decreases map.len() - i,
    {
        let ghost rest = start.skip(i as int);
        assert(rest[0] == start[i as int]);
        assert(rest.drop_first() =~= start.skip(i + 1));
        if same_chars(&map[i].0, &key) {
            let ghost kv = (key@, value@);
            map.set(i, (key, value));
            assert(pairs(map@) =~= start.take(i as int) + (seq![kv] + rest.drop_first()));
            return ;
        }
        assert(start.take(i + 1) =~= start.take(i as int).push(start[i as int]));
        assert(start.take(i + 1) + put(start.skip(i + 1), key@, value@) =~= start.take(i as int)
            + (seq![rest[0]] + put(rest.drop_first(), key@, value@)));
        i += 1;
    }
    let ghost kv = (key@, value@);
    map.push((key, value));
    proof {
        assert(start.skip(i as int) =~= Seq::<(Seq<char>, Seq<char>)>::empty());
        assert(start.take(i as int) =~= start);
        assert(pairs(map@) =~= start + seq![kv]);
    }
}

/// Reads a list of pairs as a map.
fn compact_pairs(list: &Vec<(Vec<char>, Vec<char>)>) -> (r: Vec<(Vec<char>, Vec<char>)>)
    ensures
        pairs(r@) == compact(pairs(list@)),
{
    let ghost all = pairs(list@);
    let mut r: Vec<(Vec<char>, Vec<char>)> = Vec::new();
    let mut i: usize = 0;
    assert(pairs(r@) =~= compact(all.take(0)));
    while i < list.len()
        invariant
            i <= list.len(),
            all == pairs(list@),
            pairs(r@) == compact(all.take(i as int)),
        decreases list.len() - i,
    {
        let ghost part = all.take(i + 1);
        assert(part.drop_last() =~= all.take(i as int));
        assert(part.last() == all[i as int]);
        put_pair(&mut r, copy_chars(&list[i].0), copy_chars(&list[i].1));
        i += 1;
    }
    assert(all.take(i as int) =~= all);
    r
}

/// Reads the keys and values of a file, in their order.
fn read_file_pairs(file: &Option<Vec<u8>>) -> (r: Result<Vec<(Vec<char>, Vec<char>)>, RepoError>)
    ensures
        r matches Ok(list) ==> file_pairs(file_view(*file)) == Ok::<
            Seq<(Seq<char>, Seq<char>)>,
            RepoError,
        >(pairs(list@)),
        r matches Err(e) ==> file_pairs(file_view(*file)) == Err::<
            Seq<(Seq<char>, Seq<char>)>,
            RepoError,
        >(e),
{
    match file {
        None => {
            let r: Vec<(Vec<char>, Vec<char>)> = Vec::new();
            assert(pairs(r@) =~= Seq::<(Seq<char>, Seq<char>)>::empty());
            Ok(r)
        },
        Some(bytes) => match decode_text(bytes.as_slice()) {
            Some(text) => Ok(read_pairs(&string_chars(text.as_str()))),
            None => Err(RepoError::InvalidConfig),
        },
    }
}

/// Turns a list of pairs of characters into pairs of strings.
fn to_strings(list: &Vec<(Vec<char>, Vec<char>)>) -> (r: Vec<(String, String)>)
    ensures
        string_pairs(r@) == pairs(list@),
{
    let mut r: Vec<(String, String)> = Vec::new();
    let mut i: usize = 0;
    while i < list.len()
        invariant
            i <= list.len(),
            string_pairs(r@) == pairs(list@).take(i as int),
        decreases list.len() - i,
    {
        let ghost before = string_pairs(r@);
        r.push((chars_to_string(&list[i].0), chars_to_string(&list[i].1)));
        assert(string_pairs(r@) =~= before.push(pairs(list@)[i as int]));
        assert(pairs(list@).take(i + 1) =~= pairs(list@).take(i as int).push(
            pairs(list@)[i as int],
        ));
        i += 1;
    }
    assert(pairs(list@).take(i as int) =~= pairs(list@));
    r
}

/// Writes the pairs as lines `key=value`.
fn render(map: &Vec<(Vec<char>, Vec<char>)>) -> (r: Vec<char>)
    ensures
        r@ == rendered(pairs(map@)),
{
    let ghost all = pairs(map@);
    let mut r: Vec<char> = Vec::new();
    let mut i: usize = 0;
    assert(r@ =~= rendered(all.take(0)));
    while i < map.len()
        invariant
            i <= map.len(),
            all == pairs(map@),
            r@ == rendered(all.take(i as int)),
        decreases map.len() - i,
    {
        let ghost part = all.take(i + 1);
        assert(part.drop_last() =~= all.take(i as int));
        assert(part.last() == all[i as int]);
        append_chars(&mut r, &map[i].0);
        r.push('=');
        append_chars(&mut r, &map[i].1);
        r.push('\n');
        assert(r@ =~= rendered(part));
        i += 1;
    }
    assert(all.take(i as int) =~= all);
    r
}

impl Config {
    /// The configuration of a repository, from the bytes of its two files.
    pub fn new(repo_config: Option<Vec<u8>>, global_config: Option<Vec<u8>>) -> (r: Config)
        ensures
            r.repo_config == repo_config,
            r.global_config == global_config,
    {
        Config { repo_config, global_config }
    }

    /// The configuration outside any repository: the user's file alone.
    pub fn global_only(global_config: Option<Vec<u8>>) -> (r: Config)
        ensures
            r.repo_config is None,
            r.global_config == global_config,
    {
        Config { repo_config: None, global_config }
    }

    /// The keys and values of a file read as a map: each key once, where it came
    /// first, with the value that came last.
    pub fn read_all_config(file: &Option<Vec<u8>>) -> (r: Result<Vec<(String, String)>, RepoError>)
        ensures
            match file_pairs(file_view(*file)) {
                Ok(list) => r matches Ok(map) && string_pairs(map@) == compact(list),
                Err(e) => r == Err::<Vec<(String, String)>, RepoError>(e),
            },
    {
        match read_file_pairs(file) {
            Ok(list) => Ok(to_strings(&compact_pairs(&list))),
            Err(e) => Err(e),
        }
    }

    /// The value of `key` in a file: that of the last line that sets it.
    pub fn read_config_file(file: &Option<Vec<u8>>, key: &str) -> (r: Result<
        Option<String>,
        RepoError,
    >)
        ensures
            match file_pairs(file_view(*file)) {
                Ok(list) => r matches Ok(found) && match found {
                    Some(v) => last_value(list, key@) == Some(v@),
                    None => last_value(list, key@) is None,
                },
                Err(e) => r == Err::<Option<String>, RepoError>(e),
            },
    {
        match read_file_pairs(file) {
            Ok(list) => match lookup(&list, &string_chars(key)) {
                Some(i) => Ok(Some(chars_to_string(&list[i].1))),
                None => Ok(None),
            },
            Err(e) => Err(e),
        }
    }

    /// The value of `key`: that of the repository's file if it has one, else
    /// that of the user's file.
    pub fn get(&self, key: &str) -> (r: Result<Option<String>, RepoError>)
        ensures
            match config_value(file_view(self.repo_config), file_view(self.global_config), key@) {
                Ok(Some(v)) => r matches Ok(Some(found)) && found@ == v,
                Ok(None) => r matches Ok(None),
                Err(e) => r == Err::<Option<String>, RepoError>(e),
            },
    {
        match Config::read_config_file(&self.repo_config, key) {
            Err(e) => Err(e),
            Ok(Some(v)) => Ok(Some(v)),
            Ok(None) => Config::read_config_file(&self.global_config, key),
        }
    }

    /// Sets `key` to `value` in the user's file if `global` holds, else in the
    /// repository's. The file is read as a map, the value put in the place of
    /// the key or at the end, and the map written out as lines `key=value`.
    /// The new text of the file is returned, and the configuration holds it.
    pub fn set(&mut self, key: &str, value: &str, global: bool) -> (r: Result<String, RepoError>)
        ensures
            match text_after_set(
                file_view(
                    if global {
                        old(self).global_config
                    } else {
                        old(self).repo_config
                    },
                ),
                key@,
                value@,
            ) {
                Ok(after) => r matches Ok(text) && text@ == after && file_view(
                    if global {
                        final(self).global_config
                    } else {
                        final(self).repo_config
                    },
                ) == Some(vstd::utf8::encode_utf8(text@)) && (if global {
                    final(self).repo_config == old(self).repo_config
                } else {
                    final(self).global_config == old(self).global_config
                }),
                Err(e) => r == Err::<String, RepoError>(e) && *final(self) == *old(self),
            },
    {
        let read = if global {
            read_file_pairs(&self.global_config)
        } else {
            read_file_pairs(&self.repo_config)
        };
        let list = match read {
            Ok(list) => list,
            Err(e) => {
                return Err(e);
            },
        };
        let mut map = compact_pairs(&list);
        put_pair(&mut map, string_chars(key), string_chars(value));
        let text = chars_to_string(&render(&map));
        let mut bytes: Vec<u8> = Vec::new();
        bytes.extend_from_slice(text.as_str().as_bytes());
        assert(bytes@ =~= vstd::utf8::encode_utf8(text@));
        if global {
            self.global_config = Some(bytes);
        } else {
            self.repo_config = Some(bytes);
        }
        Ok(text)
    }

    /// Every key with its value: the keys of the user's file with `global.` in
    /// front, then the keys of the repository's file, read together as a map.
    pub fn list(&self) -> (r: Result<Vec<(String, String)>, RepoError>)
        ensures
            match listed(file_view(self.repo_config), file_view(self.global_config)) {
                Err(e) => r == Err::<Vec<(String, String)>, RepoError>(e),
                Ok(all) => r matches Ok(map) && string_pairs(map@) == all,
            },
    {
        let global = match read_file_pairs(&self.global_config) {
            Ok(list) => list,
            Err(e) => {
                return Err(e);
            },
        };
        let repo = match read_file_pairs(&self.repo_config) {
            Ok(list) => list,
            Err(e) => {
                return Err(e);
            },
        };
        let mut all: Vec<(Vec<char>, Vec<char>)> = Vec::new();
        let mut i: usize = 0;
        while i < global.len()
            invariant
                i <= global.len(),
                pairs(all@) == prefixed(pairs(global@)).take(i as int),
            decreases global.len() - i,
        {
            let ghost before = pairs(all@);
            let mut key = vec!['g', 'l', 'o', 'b', 'a', 'l', '.'];
            assert(key@ =~= global_prefix());
            append_chars(&mut key, &global[i].0);
            all.push((key, copy_chars(&global[i].1)));
            assert(pairs(all@) =~= before.push(prefixed(pairs(global@))[i as int]));
            assert(prefixed(pairs(global@)).take(i + 1) =~= prefixed(pairs(global@)).take(
                i as int,
            ).push(prefixed(pairs(global@))[i as int]));
            i += 1;
        }
        assert(prefixed(pairs(global@)).take(i as int) =~= prefixed(pairs(global@)));
        let mut j: usize = 0;
        while j < repo.len()
            invariant
                j <= repo.len(),
                pairs(all@) == prefixed(pairs(global@)) + pairs(repo@).take(j as int),
            decreases repo.len() - j,
        {
            let ghost before = pairs(all@);
            all.push((copy_chars(&repo[j].0), copy_chars(&repo[j].1)));
            assert(pairs(all@) =~= before.push(pairs(repo@)[j as int]));
            assert(pairs(repo@).take(j + 1) =~= pairs(repo@).take(j as int).push(
                pairs(repo@)[j as int],
            ));
            j += 1;
        }
        assert(pairs(repo@).take(j as int) =~= pairs(repo@));
        Ok(to_strings(&compact_pairs(&all)))
    }

    /// The lines `key=value` of a map, as they are written to a file.
    pub fn write_config(config: &Vec<(String, String)>) -> (r: String)
        ensures
            r@ == rendered(string_pairs(config@)),
    {
        let mut list: Vec<(Vec<char>, Vec<char>)> = Vec::new();
        let mut i: usize = 0;
        while i < config.len()
            invariant
                i <= config.len(),
                pairs(list@) == string_pairs(config@).take(i as int),
            decreases config.len() - i,
        {
            let ghost before = pairs(list@);
            list.push((string_chars(config[i].0.as_str()), string_chars(config[i].1.as_str())));
            assert(pairs(list@) =~= before.push(string_pairs(config@)[i as int]));
            assert(string_pairs(config@).take(i + 1) =~= string_pairs(config@).take(i as int).push(
                string_pairs(config@)[i as int],
            ));
            i += 1;
        }
        assert(string_pairs(config@).take(i as int) =~= string_pairs(config@));
        chars_to_string(&render(&list))
    }

    /// The name of the user: the value of `user.name`, or `fallback` where the
    /// configuration has none or cannot be read.
    pub fn get_user_name(&self, fallback: String) -> (r: String)
        ensures
            r@ == (match config_value(
                file_view(self.repo_config),
                file_view(self.global_config),
                "user.name"@,
            ) {
                Ok(Some(v)) => v,
                _ => fallback@,
            }),
    {
        match self.get("user.name") {
            Ok(Some(v)) => v,
            _ => fallback,
        }
    }

    /// The address of the user: the value of `user.email`, or
    /// `user@example.com` where the configuration has none or cannot be read.
    pub fn get_user_email(&self) -> (r: String)
        ensures
            r@ == (match config_value(
                file_view(self.repo_config),
                file_view(self.global_config),
                "user.email"@,
            ) {
                Ok(Some(v)) => v,
                _ => "user@example.com"@,
            }),
    {
        match self.get("user.email") {
            Ok(Some(v)) => v,
            _ => chars_to_string(&string_chars("user@example.com")),
        }
    }
}

/// What the command `config` has done.
#[derive(Debug, Clone, PartialEq, Eq)]
pub enum ConfigOutcome {
    /// Every key with its value, to be shown.
    Listed(Vec<(String, String)>),
    /// A key has been set; `content` is the new text of its file, to be written.
    Changed { key: String, value: String, content: String },
    /// The value of the key that was asked for, to be shown.
    Value(String),
}

/// Runs the command `config`: with `list` it lists every key; with a key and a
/// value it sets the key, in the user's file if `global` holds; with a key alone
/// it gives the value of the key, which must have one; without a key it fails.
pub fn config(
    settings: &mut Config,
    key: Option<String>,
    value: Option<String>,
    global: bool,
    list: bool,
) -> (r: Result<ConfigOutcome, RepoError>)
    ensures
        list ==> *final(settings) == *old(settings) && match listed(
            file_view(old(settings).repo_config),
            file_view(old(settings).global_config),
        ) {
            Ok(all) => r matches Ok(ConfigOutcome::Listed(map)) && string_pairs(map@) == all,
            Err(e) => r == Err::<ConfigOutcome, RepoError>(e),
        },
        !list && key is None ==> r == Err::<ConfigOutcome, RepoError>(RepoError::MissingKey)
            && *final(settings) == *old(settings),
        !list && key is Some && value is None ==> *final(settings) == *old(settings)
            && match config_value(
            file_view(old(settings).repo_config),
            file_view(old(settings).global_config),
            key->0@,
        ) {
            Ok(Some(v)) => r matches Ok(ConfigOutcome::Value(found)) && found@ == v,
            Ok(None) => r == Err::<ConfigOutcome, RepoError>(RepoError::KeyNotFound),
            Err(e) => r == Err::<ConfigOutcome, RepoError>(e),
        },
        !list && key is Some && value is Some ==> match text_after_set(
            file_view(
                if global {
                    old(settings).global_config
                } else {
                    old(settings).repo_config
                },
            ),
            key->0@,
            value->0@,
        ) {
            Ok(after) => r matches Ok(ConfigOutcome::Changed { key: k, value: v, content }) && k@
                == key->0@ && v@ == value->0@ && content@ == after,
            Err(e) => r == Err::<ConfigOutcome, RepoError>(e),
        },
{
    if list {
        return match settings.list() {
            Ok(map) => Ok(ConfigOutcome::Listed(map)),
            Err(e) => Err(e),
        };
    }
    let key = match key {
        Some(key) => key,
        None => {
            return Err(RepoError::MissingKey);
        },
    };
    match value {
        Some(value) => match settings.set(key.as_str(), value.as_str(), global) {
            Ok(content) => Ok(ConfigOutcome::Changed { key, value, content }),
            Err(e) => Err(e),
        },
        None => match settings.get(key.as_str()) {
            Ok(Some(found)) => Ok(ConfigOutcome::Value(found)),
            Ok(None) => Err(RepoError::KeyNotFound),
            Err(e) => Err(e),
        },
    }
}

} // verus!
