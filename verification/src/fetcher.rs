//! Source classification and the pure pieces of content acquisition. The
//! actual file and network reads live outside the library; what can be
//! specified — how a source string is classified and how a display name is
//! derived from a URL path — is verified here.

use vstd::prelude::*;
use vstd::string::StrSliceExecFns;
use vstd::string::StringExecFns;

use crate::text::has_word_at;
use crate::text::last_index_of;
use crate::text::rfind_char;
use crate::text::word_at;

verus! {

pub open spec fn http_prefix() -> Seq<char> {
    seq!['h', 't', 't', 'p', ':', '/', '/']
}

pub open spec fn https_prefix() -> Seq<char> {
    seq!['h', 't', 't', 'p', 's', ':', '/', '/']
}

/// A source string names a URL when it starts with an HTTP scheme prefix;
/// everything else is treated as a filesystem path.
pub open spec fn spec_is_url(s: Seq<char>) -> bool {
    word_at(s, 0, http_prefix()) || word_at(s, 0, https_prefix())
}

pub open spec fn downloaded_word() -> Seq<char> {
    seq!['d', 'o', 'w', 'n', 'l', 'o', 'a', 'd', 'e', 'd', '.', 'm', 'd']
}

/// The display name derived from a URL path: the last `/`-separated segment,
/// or "downloaded.md" when that segment is empty.
pub open spec fn spec_url_filename(path: Seq<char>) -> Seq<char> {
    let seg = path.subrange(last_index_of(path, '/') + 1, path.len() as int);
    if seg.len() == 0 {
        downloaded_word()
    } else {
        seg
    }
}

/// Content acquisition. Reading files and issuing HTTP requests is the
/// caller's concern; the classification and naming rules they share are
/// verified here.
pub struct ContentFetcher;

impl ContentFetcher {
    /// Classify a source string, per `spec_is_url`.
    pub fn is_url(source: &str) -> (r: bool)
        ensures
            r == spec_is_url(source@),
    {
        let mut http: Vec<char> = Vec::new();
        http.push('h');
        http.push('t');
        http.push('t');
        http.push('p');
        http.push(':');
        http.push('/');
        http.push('/');
        proof {
            assert(http@ =~= http_prefix());
        }
        if has_word_at(source, 0, &http) {
            return true;
        }
        let mut https: Vec<char> = Vec::new();
        https.push('h');
        https.push('t');
        https.push('t');
        https.push('p');
        https.push('s');
        https.push(':');
        https.push('/');
        https.push('/');
        proof {
            assert(https@ =~= https_prefix());
        }
        has_word_at(source, 0, &https)
    }

    /// Derive the display name from a URL path, per `spec_url_filename`.
    pub fn extract_filename_from_url(path: &str) -> (r: String)
        ensures
            r@ == spec_url_filename(path@),
    {
        let n = path.unicode_len();
        let (has_slash, slash) = rfind_char(path, '/');
        let seg_start = if has_slash {
            slash + 1
        } else {
            0
        };
        let ghost segv = path@.subrange(last_index_of(path@, '/') + 1, path@.len() as int);
        if seg_start == n {
            proof {
                assert(segv.len() == 0);
            }
            let mut d = String::new();
            crate::text::push_char(&mut d, 'd');
            crate::text::push_char(&mut d, 'o');
            crate::text::push_char(&mut d, 'w');
            crate::text::push_char(&mut d, 'n');
            crate::text::push_char(&mut d, 'l');
            crate::text::push_char(&mut d, 'o');
            crate::text::push_char(&mut d, 'a');
            crate::text::push_char(&mut d, 'd');
            crate::text::push_char(&mut d, 'e');
            crate::text::push_char(&mut d, 'd');
            crate::text::push_char(&mut d, '.');
            crate::text::push_char(&mut d, 'm');
            crate::text::push_char(&mut d, 'd');
            proof {
                assert(d@ =~= downloaded_word());
            }
            d
        } else {
            let seg = path.substring_char(seg_start, n);
            proof {
                assert(seg@ =~= segv);
            }
            String::from_str(seg)
        }
    }
}

} // verus!
