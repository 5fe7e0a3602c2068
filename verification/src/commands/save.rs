use vstd::prelude::*;
use vstd::string::{StrSliceExecFns, StringExecFns};

verus! {

/// The extension of a wave file.
pub open spec fn wav_extension() -> Seq<char> {
    seq!['.', 'w', 'a', 'v']
}

/// `s` ends with `suffix`.
pub open spec fn ends_with(s: Seq<char>, suffix: Seq<char>) -> bool {
    s.len() >= suffix.len() && s.subrange(s.len() - suffix.len(), s.len() as int) == suffix
}

/// `name` with `.wav` added unless it already ends with it.
pub open spec fn wav_name(name: Seq<char>) -> Seq<char> {
    if ends_with(name, wav_extension()) {
        name
    } else {
        name + wav_extension()
    }
}

/// A name made into a wave file name is left as it is the second time.
pub proof fn lemma_wav_name_idempotent(name: Seq<char>)
    ensures
        ends_with(wav_name(name), wav_extension()),
        wav_name(wav_name(name)) == wav_name(name),
{
    if !ends_with(name, wav_extension()) {
        let r = name + wav_extension();
        assert(r.subrange(r.len() - 4, r.len() as int) =~= wav_extension());
    }
}

/// The name of the file to save to: `name`, with `.wav` added unless it
/// already ends with it.
pub fn wav_file_name(name: String) -> (r: String)
    ensures
        r@ == wav_name(name@),
{
    let len = name.as_str().unicode_len();
    let mut has_extension = false;
    if len >= 4 {
        let a = name.as_str().get_char(len - 4);
        let b = name.as_str().get_char(len - 3);
        let c = name.as_str().get_char(len - 2);
        let d = name.as_str().get_char(len - 1);
        has_extension = a == '.' && b == 'w' && c == 'a' && d == 'v';
        proof {
            let tail = name@.subrange(len - 4, len as int);
            if has_extension {
                assert(tail =~= wav_extension());
            } else {
                assert(tail[0] == a && tail[1] == b && tail[2] == c && tail[3] == d);
            }
        }
    }
    let mut name = name;
    if !has_extension {
        proof {
            reveal_strlit(".wav");
        }
        name.append(".wav");
    }
    name
}

} // verus!
