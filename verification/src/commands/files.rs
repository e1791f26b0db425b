//! What is done with a file that was found.

use crate::text::{chars_of, decimal, to_decimal};
use vstd::prelude::*;
use vstd::string::StringExecFns;

verus! {

/// The text with every single quote written twice.
pub open spec fn quotes_doubled(s: Seq<char>) -> Seq<char>
    decreases s.len(),
{
    if s.len() == 0 {
        Seq::empty()
    } else if s.last() == '\'' {
        quotes_doubled(s.drop_last()).push('\'').push('\'')
    } else {
        quotes_doubled(s.drop_last()).push(s.last())
    }
}

/// The shell command that puts a path on the clipboard.
pub open spec fn clipboard_text(path: Seq<char>) -> Seq<char> {
    "Set-Clipboard -Value '"@ + quotes_doubled(path) + "'"@
}

/// The shell command that puts a path on the clipboard. The path stands between single quotes, so
/// those in it are doubled.
pub fn clipboard_command(path: &str) -> (command: String)
    ensures
        command@ == clipboard_text(path@),
{
    let chars = chars_of(path);
    let mut quoted = String::new();
    let mut i: usize = 0;
    assert(quoted@ =~= quotes_doubled(path@.take(0)));
    while i < chars.len()
        invariant
            i <= chars@.len(),
            chars@ == path@,
            quoted@ == quotes_doubled(path@.take(i as int)),
        decreases chars@.len() - i,
    {
        assert(path@.take(i + 1).drop_last() =~= path@.take(i as int));
        if chars[i] == '\'' {
            quoted.push('\'');
            quoted.push('\'');
        } else {
            quoted.push(chars[i]);
        }
        i += 1;
    }
    assert(path@.take(i as int) =~= path@);
    let command = "Set-Clipboard -Value '".to_owned().concat(quoted.as_str()).concat("'");
    command
}

/// Every single quote in a doubled text stands in a pair, so that the text cannot end a quotation:
/// reading pairs as one quote each gives the text back.
pub proof fn law_doubling_is_undone(s: Seq<char>)
    ensures
        pairs_read(quotes_doubled(s)) == s,
    decreases s.len(),
{
    if s.len() > 0 {
        let rest = s.drop_last();
        let doubled = quotes_doubled(s);
        law_doubling_is_undone(rest);
        if s.last() == '\'' {
            assert(doubled.drop_last().drop_last() =~= quotes_doubled(rest));
        } else {
            assert(doubled.drop_last() =~= quotes_doubled(rest));
        }
        assert(pairs_read(doubled) =~= s);
    }
}

/// The text with every pair of single quotes read as one, from the end.
pub open spec fn pairs_read(s: Seq<char>) -> Seq<char>
    decreases s.len(),
{
    if s.len() == 0 {
        Seq::empty()
    } else if s.len() >= 2 && s[s.len() - 1] == '\'' && s[s.len() - 2] == '\'' {
        pairs_read(s.drop_last().drop_last()).push('\'')
    } else {
        pairs_read(s.drop_last()).push(s.last())
    }
}

/// The shell reads the path back from the command: what stands between the first quote and the last
/// character, which is a quote too, with every pair of quotes read as one.
pub proof fn law_command_holds_the_path(path: Seq<char>)
    ensures
        clipboard_text(path).len() >= 23,
        clipboard_text(path).take(22) == "Set-Clipboard -Value '"@,
        clipboard_text(path).last() == '\'',
        pairs_read(clipboard_text(path).subrange(22, clipboard_text(path).len() - 1)) == path,
{
    let text = clipboard_text(path);
    reveal_strlit("Set-Clipboard -Value '");
    reveal_strlit("'");
    law_doubling_is_undone(path);
    assert(text.take(22) =~= "Set-Clipboard -Value '"@);
    assert(text.subrange(22, text.len() - 1) =~= quotes_doubled(path));
}

/// Quotes are doubled piece by piece: two quotes stand for each one, and every other character
/// stands for itself.
pub proof fn law_quotes_are_doubled_one_by_one(before: Seq<char>, c: char, after: Seq<char>)
    ensures
        quotes_doubled(before + seq![c] + after) == quotes_doubled(before) + (if c == '\'' {
            seq!['\'', '\'']
        } else {
            seq![c]
        }) + quotes_doubled(after),
        quotes_doubled(Seq::<char>::empty()).len() == 0,
    decreases after.len(),
{
    let all = before + seq![c] + after;
    let here = if c == '\'' {
        seq!['\'', '\'']
    } else {
        seq![c]
    };
    if after.len() == 0 {
        assert(all.drop_last() =~= before);
        assert(quotes_doubled(all) =~= quotes_doubled(before) + here + quotes_doubled(after));
    } else {
        let rest = after.drop_last();
        law_quotes_are_doubled_one_by_one(before, c, rest);
        assert(all.drop_last() =~= before + seq![c] + rest);
        assert(quotes_doubled(all) =~= quotes_doubled(before) + here + quotes_doubled(after));
    }
}

/// What the file system tells of a file.
#[derive(Clone, Copy)]
pub struct FileFacts {
    pub size: u64,
    pub is_dir: bool,
    pub is_file: bool,
    pub readonly: bool,
    /// The time of the last change in seconds since 1970, where it is known.
    pub modified: Option<u64>,
}

/// A truth value as text.
pub open spec fn bool_text(b: bool) -> Seq<char> {
    if b {
        "true"@
    } else {
        "false"@
    }
}

/// A property under its name.
pub open spec fn property(pair: (String, String), name: Seq<char>, value: Seq<char>) -> bool {
    pair.0@ == name && pair.1@ == value
}

fn bool_string(b: bool) -> (text: String)
    ensures
        text@ == bool_text(b),
{
    if b {
        "true".to_owned()
    } else {
        "false".to_owned()
    }
}

/// The properties of a file, each under its name.
pub fn file_properties(facts: &FileFacts) -> (props: Vec<(String, String)>)
    ensures
        props@.len() == if facts.modified is Some {
            5int
        } else {
            4int
        },
        property(props@[0], "size"@, decimal(facts.size as nat)),
        property(props@[1], "is_dir"@, bool_text(facts.is_dir)),
        property(props@[2], "is_file"@, bool_text(facts.is_file)),
        property(props@[3], "readonly"@, bool_text(facts.readonly)),
        facts.modified matches Some(secs) ==> property(
            props@[4],
            "modified"@,
            decimal(secs as nat),
        ),
{
    let mut props: Vec<(String, String)> = Vec::new();
    props.push(("size".to_owned(), to_decimal(facts.size)));
    props.push(("is_dir".to_owned(), bool_string(facts.is_dir)));
    props.push(("is_file".to_owned(), bool_string(facts.is_file)));
    props.push(("readonly".to_owned(), bool_string(facts.readonly)));
    if let Some(secs) = facts.modified {
        props.push(("modified".to_owned(), to_decimal(secs)));
    }
    props
}

} // verus!
