//! Validation of user-supplied relative paths (configuration and data
//! locations): not blank, no `..` component text, not rooted.
use vstd::prelude::*;

verus! {

/// Characters with the Unicode White_Space property (what `char::is_whitespace` accepts).
pub open spec fn is_white(c: char) -> bool {
    ||| ('\u{9}' <= c && c <= '\u{d}')
    ||| c == ' '
    ||| c == '\u{85}'
    ||| c == '\u{a0}'
    ||| c == '\u{1680}'
    ||| ('\u{2000}' <= c && c <= '\u{200a}')
    ||| c == '\u{2028}'
    ||| c == '\u{2029}'
    ||| c == '\u{202f}'
    ||| c == '\u{205f}'
    ||| c == '\u{3000}'
}

/// The text is empty once surrounding whitespace is trimmed.
pub open spec fn blank(s: Seq<char>) -> bool {
    forall|i: int| 0 <= i < s.len() ==> is_white(#[trigger] s[i])
}

/// The text contains `..`.
pub open spec fn has_dotdot(s: Seq<char>) -> bool {
    exists|i: int| 0 <= i < s.len() - 1 && #[trigger] s[i] == '.' && s[i + 1] == '.'
}

/// The path starts at the root (`/`).
pub open spec fn rooted(s: Seq<char>) -> bool {
    s.len() > 0 && s[0] == '/'
}

fn white(c: char) -> (r: bool)
    ensures
        r == is_white(c),
{
    ('\u{9}' <= c && c <= '\u{d}') || c == ' ' || c == '\u{85}' || c == '\u{a0}' || c == '\u{1680}'
        || ('\u{2000}' <= c && c <= '\u{200a}') || c == '\u{2028}' || c == '\u{2029}' || c
        == '\u{202f}' || c == '\u{205f}' || c == '\u{3000}'
}

fn labelled(label: &str, msg: &str) -> (r: String)
    ensures
        r@ == label@ + msg@,
{
    let mut s = String::from_str(label);
    s.append(msg);
    s
}

/// Validates a relative path: `Err("<label>: path cannot be empty")` when it
/// is blank, `Err("<label>: path traversal ('..') not allowed")` when it
/// contains `..`, `Err("<label>: absolute paths not allowed")` when it
/// starts at the root; otherwise the path itself.
pub fn validate_path(path: &str, label: &str) -> (r: Result<String, String>)
    ensures
        blank(path@) ==> (r matches Err(e) && e@ == label@ + ": path cannot be empty"@),
        !blank(path@) && has_dotdot(path@) ==> (r matches Err(e) && e@ == label@
            + ": path traversal ('..') not allowed"@),
        !blank(path@) && !has_dotdot(path@) && rooted(path@) ==> (r matches Err(e) && e@ == label@
            + ": absolute paths not allowed"@),
        !blank(path@) && !has_dotdot(path@) && !rooted(path@) ==> (r matches Ok(p) && p@ == path@),
{
    let n = path.unicode_len();
    let mut i: usize = 0;
    let mut all_white = true;
    while i < n
        invariant
            n == path@.len(),
            i <= n,
            all_white == (forall|j: int| 0 <= j < i ==> is_white(#[trigger] path@[j])),
        decreases n - i,
    {
        if !white(path.get_char(i)) {
            all_white = false;
        }
        i = i + 1;
    }
    if all_white {
        return Err(labelled(label, ": path cannot be empty"));
    }
    let mut k: usize = 0;
    while n > 0 && k < n - 1
        invariant
            n == path@.len(),
            k <= n,
            forall|j: int| 0 <= j < k && j < n - 1 ==> !(#[trigger] path@[j] == '.' && path@[j + 1] == '.'),
        decreases n - k,
    {
        if path.get_char(k) == '.' && path.get_char(k + 1) == '.' {
            return Err(labelled(label, ": path traversal ('..') not allowed"));
        }
        k = k + 1;
    }
    if n > 0 && path.get_char(0) == '/' {
        return Err(labelled(label, ": absolute paths not allowed"));
    }
    Ok(String::from_str(path))
}

} // verus!
