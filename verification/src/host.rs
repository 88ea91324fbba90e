//! The name of the machine, and the worksheet that is named after it.

use vstd::prelude::*;
use vstd::string::*;
use vstd::utf8::*;
use crate::text::{
    blank, law_replaced_first, law_replaced_nothing, law_trim_end, law_trim_start, replace_text,
    replaced, trim, trim_end, trim_start, white_space,
};

verus! {

/// What `String::from_utf8_lossy` makes of some bytes.
pub uninterp spec fn utf8_lossy(bytes: Seq<u8>) -> Seq<char>;

/// `String::from_utf8_lossy`: bytes that are UTF-8 give the text that they encode.
#[verifier::external_body]
fn lossy_text(bytes: &[u8]) -> (r: String)
    ensures
        r@ == utf8_lossy(bytes@),
        valid_utf8(bytes@) ==> r@ == decode_utf8(bytes@),
{
    String::from_utf8_lossy(bytes).into_owned()
}

/// A host name without the domain of a local network.
pub open spec fn short_name(name: Seq<char>) -> Seq<char> {
    replaced(replaced(trim_end(trim_start(name)), ".localdomain"@, ""@), ".local"@, ""@)
}

/// The short form of a host name as a program printed it.
pub fn short_hostname(printed: &str) -> (r: String)
    ensures
        r@ == short_name(printed@),
{
    proof {
        reveal_strlit(".localdomain");
        reveal_strlit(".local");
    }
    let name: String = trim(printed);
    let name: String = replace_text(name.as_str(), ".localdomain", "");
    replace_text(name.as_str(), ".local", "")
}

/// The host name, from what the program that prints it wrote; empty if it could not be run.
pub fn hostname(output: Option<&[u8]>) -> (r: String)
    ensures
        match output {
            Some(bytes) => r@ == short_name(utf8_lossy(bytes@)) && (valid_utf8(bytes@) ==> r@
                == short_name(decode_utf8(bytes@))),
            None => r@ == Seq::<char>::empty(),
        },
{
    match output {
        Some(bytes) => short_hostname(lossy_text(bytes).as_str()),
        None => String::new(),
    }
}

/// The worksheet of a host.
pub fn worksheet_name(host: &str) -> (r: String)
    ensures
        r@ == "worked-"@ + host@,
{
    "worked-".to_owned().concat(host)
}

proof fn lemma_trimmed(front: Seq<char>, name: Seq<char>, back: Seq<char>)
    requires
        blank(front),
        blank(back),
        name.len() > 0,
        !white_space(name[0]),
        !white_space(name.last()),
    ensures
        trim_end(trim_start(front + name + back)) == name,
{
    let s = front + name + back;
    law_trim_start(s);
    let t = trim_start(s);
    let cut = s.len() - t.len();
    if cut < front.len() {
        assert(t[0] == s[cut]);
        assert(s[cut] == front[cut]);
    }
    if cut > front.len() {
        assert(s[front.len() as int] == name[0]);
    }
    assert(t =~= name + back);
    law_trim_end(t);
    let r = trim_end(t);
    if r.len() > name.len() {
        assert(r.last() == t[r.len() - 1]);
        assert(t[r.len() - 1] == back[r.len() - 1 - name.len()]);
    }
    if r.len() < name.len() {
        assert(t[name.len() - 1] == name.last());
    }
    assert(r =~= name);
}

/// A name with `.local` or `.localdomain` behind it, and white space around it, such as the line end that
/// a program prints, has what stands ahead of that as its short form, unless `.local` occurs earlier.
pub proof fn law_short_name(front: Seq<char>, name: Seq<char>, back: Seq<char>)
    requires
        blank(front),
        blank(back),
        name.len() > 0,
        !white_space(name[0]),
        forall|p: int|
            0 <= p < name.len() ==> #[trigger] (name + ".localdomain"@).subrange(p, p + 6)
                != ".local"@,
    ensures
        short_name(front + (name + ".local"@) + back) == name,
        short_name(front + (name + ".localdomain"@) + back) == name,
{
    reveal_strlit(".localdomain");
    reveal_strlit(".local");
    reveal_strlit("");
    let (long, short, none) = (".localdomain"@, ".local"@, ""@);
    let n = name.len() as int;
    let (a, b) = (name + short, name + long);
    assert(!white_space('l') && !white_space('n'));
    assert(a.last() == 'l' && b.last() == 'n' && a[0] == name[0] && b[0] == name[0]);
    lemma_trimmed(front, a, back);
    lemma_trimmed(front, b, back);
    assert(long.take(6) =~= short);
    let empty = Seq::<char>::empty();
    assert(name + short + empty =~= a);
    assert(name + long + empty =~= b);
    assert forall|p: int| 0 <= p < n implies #[trigger] (name + short + empty).subrange(
        p,
        p + short.len(),
    ) != short by {
        assert(a.subrange(p, p + 6) =~= b.subrange(p, p + 6));
    }
    assert forall|p: int| 0 <= p < n implies #[trigger] (name + long + empty).subrange(
        p,
        p + long.len(),
    ) != long by {
        if b.subrange(p, p + 12) == long {
            assert(b.subrange(p, p + 6) =~= long.take(6));
        }
    }
    assert forall|p: int| 0 <= p <= a.len() - 12 implies #[trigger] a.subrange(p, p + 12) != long by {
        if a.subrange(p, p + 12) == long {
            assert(a.subrange(p, p + 6) =~= long.take(6));
            assert(a.subrange(p, p + 6) =~= b.subrange(p, p + 6));
        }
    }
    assert forall|p: int| 0 <= p <= name.len() - 6 implies #[trigger] name.subrange(p, p + 6)
        != short by {
        assert(name.subrange(p, p + 6) =~= b.subrange(p, p + 6));
    }
    law_replaced_nothing(a, long, none);
    law_replaced_nothing(name, short, none);
    law_replaced_first(name, empty, short, none);
    law_replaced_first(name, empty, long, none);
    assert(name + none + replaced(empty, short, none) =~= name);
    assert(name + none + replaced(empty, long, none) =~= name);
}

/// A name in which `.local` does not occur is the short form of itself, dots or none.
pub proof fn law_other_name_kept(front: Seq<char>, name: Seq<char>, back: Seq<char>)
    requires
        blank(front),
        blank(back),
        name.len() > 0,
        !white_space(name[0]),
        !white_space(name.last()),
        forall|p: int| 0 <= p <= name.len() - 6 ==> #[trigger] name.subrange(p, p + 6) != ".local"@,
    ensures
        short_name(front + name + back) == name,
{
    reveal_strlit(".localdomain");
    reveal_strlit(".local");
    let (long, short, none) = (".localdomain"@, ".local"@, ""@);
    lemma_trimmed(front, name, back);
    assert forall|p: int| 0 <= p <= name.len() - long.len() implies #[trigger] name.subrange(
        p,
        p + long.len(),
    ) != long by {
        if name.subrange(p, p + long.len()) == long {
            assert(name.subrange(p, p + 6) =~= long.take(6));
            assert(long.take(6) =~= short);
        }
    }
    law_replaced_nothing(name, long, none);
    law_replaced_nothing(name, short, none);
}

} // verus!
