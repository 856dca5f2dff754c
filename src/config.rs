use vstd::prelude::*;

verus! {

/// `s` without one trailing `/`, if it has one.
pub open spec fn trim_end_slash(s: Seq<char>) -> Seq<char> {
    if s.len() > 0 && s.last() == '/' {
        s.drop_last()
    } else {
        s
    }
}

/// `s` without one leading `/`, if it has one.
pub open spec fn trim_start_slash(s: Seq<char>) -> Seq<char> {
    if s.len() > 0 && s[0] == '/' {
        s.drop_first()
    } else {
        s
    }
}

/// The absolute URL of a root-relative path under a base URL: exactly one
/// `/` stands between the two.
pub open spec fn permalink_of(base: Seq<char>, path: Seq<char>) -> Seq<char> {
    trim_end_slash(base) + seq!['/'] + trim_start_slash(path)
}

/// The site options that the content graph reads.
pub struct Config {
    /// The site's base URL, such as `https://example.com`.
    pub base_url: String,
    /// The path segment that precedes a pager's index, `page` by default.
    pub paginate_path: String,
}

impl Config {
    /// A configuration with the given base URL and the default pager segment.
    pub fn new(base_url: &str) -> (r: Config)
        ensures
            r.base_url@ == base_url@,
            r.paginate_path@ == seq!['p', 'a', 'g', 'e'],
    {
        proof {
            reveal_strlit("page");
        }
        Config { base_url: String::from_str(base_url), paginate_path: String::from_str("page") }
    }

    /// The absolute URL of the root-relative `path`.
    pub fn make_permalink(&self, path: &str) -> (r: String)
        ensures
            r@ == permalink_of(self.base_url@, path@),
    {
        let base = self.base_url.as_str();
        let blen = base.unicode_len();
        let base_trimmed = if blen > 0 && base.get_char(blen - 1) == '/' {
            base.substring_char(0, blen - 1)
        } else {
            base
        };
        let plen = path.unicode_len();
        let path_trimmed = if plen > 0 && path.get_char(0) == '/' {
            path.substring_char(1, plen)
        } else {
            path
        };
        proof {
            reveal_strlit("/");
        }
        let mut r = String::from_str(base_trimmed);
        r.append("/");
        r.append(path_trimmed);
        assert(r@ =~= permalink_of(self.base_url@, path@));
        r
    }
}

} // verus!
