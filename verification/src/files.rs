use crate::text::{chars_of, matches_at, occurs_at};
use vstd::prelude::*;
use vstd::string::{StrSliceExecFns, StringExecFns};

verus! {

/// The ending of the name of a file that holds an experiment.
pub const JSON_SUFFIX: &'static str = ".json";

/// The ending that a compressed file has on top.
pub const ZST_SUFFIX: &'static str = ".zst";

/// Whether the text ends with the ending.
pub open spec fn ends_with(text: Seq<char>, ending: Seq<char>) -> bool {
    occurs_at(text, text.len() - ending.len(), ending)
}

/// The text without the ending, as often as it stands at the end.
pub open spec fn without_ending(text: Seq<char>, ending: Seq<char>) -> Seq<char>
    decreases text.len(),
{
    if ending.len() > 0 && ends_with(text, ending) {
        without_ending(text.take(text.len() - ending.len()), ending)
    } else {
        text
    }
}

/// What stands behind the last `/` of a path; the whole path if it has
/// none.
pub open spec fn last_part(path: Seq<char>) -> Seq<char>
    decreases path.len(),
{
    if path.len() == 0 || path.last() == '/' {
        seq![]
    } else {
        last_part(path.drop_last()).push(path.last())
    }
}

/// The ending of the files of a dump.
pub open spec fn dump_ending(compress: bool) -> Seq<char> {
    if compress {
        ".json"@ + ".zst"@
    } else {
        ".json"@
    }
}

/// The end of the first `to` characters of the text without the ending, as
/// often as it stands at their end.
fn end_without(text: &Vec<char>, to: usize, ending: &Vec<char>) -> (r: usize)
    requires
        to <= text.len(),
    ensures
        r <= to,
        text@.take(r as int) == without_ending(text@.take(to as int), ending@),
{
    let m = ending.len();
    let mut end = to;
    if m == 0 {
        return end;
    }
    while end >= m && matches_at(text, end - m, ending)
        invariant
            end <= to <= text.len(),
            m == ending.len(),
            m > 0,
            without_ending(text@.take(end as int), ending@) == without_ending(
                text@.take(to as int),
                ending@,
            ),
        decreases end,
    {
        proof {
            let held = text@.take(end as int);
            assert(held.subrange(end - m, end as int) =~= text@.subrange(end - m, end as int));
            assert(held.take(end - m) =~= text@.take(end - m));
        }
        end -= m;
    }
    proof {
        let held = text@.take(end as int);
        if end >= m {
            assert(held.subrange(end - m, end as int) =~= text@.subrange(end - m, end as int));
        }
    }
    end
}

/// The start of what stands behind the last `/` of the text.
fn start_of_last_part(text: &Vec<char>) -> (r: usize)
    ensures
        r <= text.len(),
        text@.skip(r as int) == last_part(text@),
{
    let mut start = text.len();
    assert(text@.skip(start as int) =~= Seq::<char>::empty());
    assert(text@.take(text@.len() as int) =~= text@);
    while start > 0 && text[start - 1] != '/'
        invariant
            start <= text.len(),
            last_part(text@) == last_part(text@.take(start as int)) + text@.skip(start as int),
        decreases start,
    {
        proof {
            let held = text@.take(start as int);
            assert(held.drop_last() =~= text@.take(start - 1));
            assert(last_part(held.drop_last()).push(held.last()) + text@.skip(start as int)
                =~= last_part(held.drop_last()) + text@.skip(start - 1));
        }
        start -= 1;
    }
    proof {
        let held = text@.take(start as int);
        assert(last_part(held) =~= Seq::<char>::empty());
        assert(last_part(held) + text@.skip(start as int) =~= text@.skip(start as int));
    }
    start
}

/// The ending of the files of a dump: that of an experiment file, and on
/// top that of a compressed file where the dump is compressed.
pub fn dump_suffix(compress: bool) -> (r: String)
    ensures
        r@ == dump_ending(compress),
{
    let mut suffix = String::from_str(JSON_SUFFIX);
    if compress {
        suffix.append(ZST_SUFFIX);
    }
    suffix
}

/// The path of the file that holds the experiment `id` in a dump.
pub fn dump_path(folder_name: &str, id: &str, compress: bool) -> (r: String)
    ensures
        r@ == folder_name@ + "/"@ + id@ + dump_ending(compress),
{
    let mut path = String::from_str(folder_name);
    path.append("/");
    path.append(id);
    let suffix = dump_suffix(compress);
    path.append(suffix.as_str());
    path
}

/// The identifier of the experiment that a file of a dump holds: the name
/// of the file without the endings of a compressed file and of an
/// experiment file.
pub fn experiment_id_of(filename: &str) -> (r: String)
    ensures
        r@ == without_ending(without_ending(last_part(filename@), ".zst"@), ".json"@),
{
    let path = chars_of(filename);
    let start = start_of_last_part(&path);
    let name = filename.substring_char(start, path.len());
    assert(name@ =~= last_part(filename@));
    let letters = chars_of(name);
    assert(letters@.take(letters@.len() as int) =~= letters@);
    let zst = chars_of(ZST_SUFFIX);
    let json = chars_of(JSON_SUFFIX);
    let end = end_without(&letters, letters.len(), &zst);
    let end = end_without(&letters, end, &json);
    let id = name.substring_char(0, end);
    assert(id@ =~= letters@.take(end as int));
    String::from_str(id)
}

/// The name of the compressed file for `filename`: the name with the
/// ending of a compressed file exactly once.
pub fn compressed_name(filename: &str) -> (r: String)
    ensures
        r@ == without_ending(filename@, ".zst"@) + ".zst"@,
{
    let letters = chars_of(filename);
    assert(letters@.take(letters@.len() as int) =~= letters@);
    let zst = chars_of(ZST_SUFFIX);
    let end = end_without(&letters, letters.len(), &zst);
    let stem = filename.substring_char(0, end);
    assert(stem@ =~= letters@.take(end as int));
    let mut name = String::from_str(stem);
    name.append(ZST_SUFFIX);
    name
}

/// What stands behind a `/` that no `/` follows is the last part of the
/// path.
pub proof fn last_part_behind_slash(folder: Seq<char>, name: Seq<char>)
    requires
        !name.contains('/'),
    ensures
        last_part(folder + seq!['/'] + name) == name,
    decreases name.len(),
{
    let path = folder + seq!['/'] + name;
    if name.len() == 0 {
        assert(path.last() == '/');
        assert(name =~= Seq::<char>::empty());
    } else {
        let front = name.drop_last();
        assert(name[name.len() - 1] == name.last());
        assert(name.contains(name.last()));
        assert(path.last() == name.last());
        assert(path.drop_last() =~= folder + seq!['/'] + front);
        assert forall|k: int| 0 <= k < front.len() implies front[k] != '/' by {
            assert(name.contains(name[k]));
        }
        if front.contains('/') {
            let k = choose|k: int| 0 <= k < front.len() && front[k] == '/';
            assert(false);
        }
        last_part_behind_slash(folder, front);
        assert(front.push(name.last()) =~= name);
    }
}

/// A text with the ending behind it loses the ending, and then what the
/// text itself loses.
pub proof fn without_added_ending(text: Seq<char>, ending: Seq<char>)
    requires
        ending.len() > 0,
    ensures
        without_ending(text + ending, ending) == without_ending(text, ending),
{
    let whole = text + ending;
    assert(whole.subrange(whole.len() - ending.len(), whole.len() as int) =~= ending);
    assert(whole.take(whole.len() - ending.len()) =~= text);
}

/// The file that a dump writes for an experiment names that experiment:
/// the identifier of its path is the identifier, for one that holds no `/`
/// and does not end as an experiment file does.
pub proof fn dump_path_names_its_experiment(folder_name: Seq<char>, id: Seq<char>, compress: bool)
    requires
        !id.contains('/'),
        !ends_with(id, ".json"@),
    ensures
        without_ending(
            without_ending(
                last_part(folder_name + "/"@ + id + dump_ending(compress)),
                ".zst"@,
            ),
            ".json"@,
        ) == id,
{
    reveal_strlit(".json");
    reveal_strlit(".zst");
    reveal_strlit("/");
    let json = ".json"@;
    let zst = ".zst"@;
    assert("/"@ =~= seq!['/']);
    let name = id + dump_ending(compress);
    assert(folder_name + "/"@ + id + dump_ending(compress) =~= folder_name + seq!['/'] + name);
    assert(!name.contains('/')) by {
        if name.contains('/') {
            let k = choose|k: int| 0 <= k < name.len() && name[k] == '/';
            if k < id.len() {
                assert(id[k] == '/');
                assert(id.contains('/'));
            } else {
                let at = k - id.len();
                assert(name[k] == dump_ending(compress)[at]);
                assert(json[0] == '.' && json[1] == 'j' && json[2] == 's' && json[3] == 'o'
                    && json[4] == 'n');
                assert(zst[0] == '.' && zst[1] == 'z' && zst[2] == 's' && zst[3] == 't');
                if compress && at >= 5 {
                    assert((json + zst)[at] == zst[at - 5]);
                } else {
                    assert(dump_ending(compress)[at] == json[at]);
                }
            }
        }
    }
    last_part_behind_slash(folder_name, name);
    let named = id + json;
    assert(!ends_with(named, zst)) by {
        if ends_with(named, zst) {
            assert(named.subrange(named.len() - 4, named.len() as int)[3] == zst[3]);
            assert(named[named.len() - 1] == json[4]);
        }
    }
    if compress {
        assert(name =~= named + zst);
        without_added_ending(named, zst);
    } else {
        assert(name =~= named);
    }
    assert(without_ending(name, zst) == named);
    without_added_ending(id, json);
}

} // verus!
