//! Frame formatter and page tracker: renders the header and footer that
//! delimit one page of a source file inside an output container, and keeps
//! the current page number with the rendered frame and its byte sizes.

use vstd::prelude::*;

verus! {

use crate::text::byte_len;
use crate::text::dec_digits;
use crate::text::u64_to_string;

/// The header text that opens a page: the file identifier, the 1-based page
/// number, and a machine-parsable start marker.
pub open spec fn header_chars(path: Seq<char>, page: nat) -> Seq<char> {
    "# repcon_file_name: "@ + path + "\n# repcon_page_number: "@ + dec_digits(page)
        + "\n// START OF CODE BLOCK: "@ + path + "\n"@
}

/// The footer text that closes a page: a machine-parsable end marker.
/// It does not depend on the page number.
pub open spec fn footer_chars(path: Seq<char>) -> Seq<char> {
    "// END OF CODE BLOCK: "@ + path + "\n\n"@
}

/// A root prefix stripped from a path, on `/`-separated path strings: the
/// part of `path` after `root` when `root` is a leading directory of `path`
/// (or all of it), and `path` unchanged otherwise.
pub open spec fn strip_root(root: Seq<char>, path: Seq<char>) -> Seq<char> {
    if root.len() == 0 {
        path
    } else if path == root {
        Seq::<char>::empty()
    } else if root.len() < path.len() && path.subrange(0, root.len() as int) == root {
        if path[root.len() as int] == '/' {
            path.subrange(root.len() as int + 1, path.len() as int)
        } else if root.last() == '/' {
            path.subrange(root.len() as int, path.len() as int)
        } else {
            path
        }
    } else {
        path
    }
}

/// The byte size of a header splits into the sizes of its fixed pieces, the
/// file identifier (twice) and the decimal page number.
pub proof fn lemma_header_byte_len(path: Seq<char>, page: nat)
    ensures
        byte_len(header_chars(path, page)) == byte_len("# repcon_file_name: "@) + byte_len(path)
            + byte_len("\n# repcon_page_number: "@) + dec_digits(page).len() + byte_len(
            "\n// START OF CODE BLOCK: "@,
        ) + byte_len(path) + byte_len("\n"@),
{
    let a = "# repcon_file_name: "@;
    let b = "\n# repcon_page_number: "@;
    let c = "\n// START OF CODE BLOCK: "@;
    let d = "\n"@;
    crate::text::lemma_byte_len_concat(a, path);
    crate::text::lemma_byte_len_concat(a + path, b);
    crate::text::lemma_byte_len_concat(a + path + b, dec_digits(page));
    crate::text::lemma_byte_len_concat(a + path + b + dec_digits(page), c);
    crate::text::lemma_byte_len_concat(a + path + b + dec_digits(page) + c, path);
    crate::text::lemma_byte_len_concat(a + path + b + dec_digits(page) + c + path, d);
    crate::text::lemma_dec_digits_ascii(page);
    crate::text::lemma_byte_len_ascii(dec_digits(page));
}

/// A header for a later page of the same file is never smaller: only the
/// decimal page number in it changes, and decimal strings never shrink.
pub proof fn lemma_header_size_monotone(path: Seq<char>, p1: nat, p2: nat)
    requires
        p1 <= p2,
    ensures
        byte_len(header_chars(path, p1)) <= byte_len(header_chars(path, p2)),
{
    lemma_header_byte_len(path, p1);
    lemma_header_byte_len(path, p2);
    crate::text::lemma_dec_digits_len_monotone(p1, p2);
}

/// The format of a page in an output container: the header and footer
/// strings for a given file, their byte sizes, the file's identifier and the
/// current 1-based page number.
pub struct PageFormat {
    pub header: String,
    pub footer: String,
    pub header_size: u64,
    pub footer_size: u64,
    pub file_path: String,
    pub page_nubmer: u64,
}

impl PageFormat {
    /// The cached strings and sizes agree with the file identifier and the
    /// page number. Constructors establish this and every method keeps it.
    pub open spec fn wf(self) -> bool {
        &&& self.page_nubmer >= 1
        &&& self.header@ == header_chars(self.file_path@, self.page_nubmer as nat)
        &&& self.footer@ == footer_chars(self.file_path@)
        &&& self.header_size == byte_len(self.header@)
        &&& self.footer_size == byte_len(self.footer@)
    }

    /// Builds the tracker for a file's first page: identifier made relative
    /// to `root` when one is given, page number 1, frame rendered and
    /// measured.
    pub fn new(file_path: String, root: Option<&str>) -> (r: PageFormat)
        ensures
            r.wf(),
            r.page_nubmer == 1,
            r.file_path@ == match root {
                Some(rt) => strip_root(rt@, file_path@),
                None => file_path@,
            },
    {
        let file_path = match root {
            Some(rt) => Self::to_relative_path(rt, file_path.as_str()),
            None => file_path,
        };
        let header = Self::create_page_header(file_path.as_str(), 1);
        let footer = Self::create_page_footer(file_path.as_str());
        let header_size = header.as_str().as_bytes().len() as u64;
        let footer_size = footer.as_str().as_bytes().len() as u64;
        PageFormat { header, footer, header_size, footer_size, file_path, page_nubmer: 1 }
    }

    /// Renders the header for `file_path` and `page_number`.
    pub fn create_page_header(file_path: &str, page_number: u64) -> (s: String)
        ensures
            s@ == header_chars(file_path@, page_number as nat),
    {
        let mut s = String::from_str("# repcon_file_name: ");
        s.append(file_path);
        s.append("\n# repcon_page_number: ");
        let num = u64_to_string(page_number);
        s.append(num.as_str());
        s.append("\n// START OF CODE BLOCK: ");
        s.append(file_path);
        s.append("\n");
        proof {
            assert(s@ =~= header_chars(file_path@, page_number as nat));
        }
        s
    }

    /// Renders the footer for `file_path`.
    pub fn create_page_footer(file_path: &str) -> (s: String)
        ensures
            s@ == footer_chars(file_path@),
    {
        let mut s = String::from_str("// END OF CODE BLOCK: ");
        s.append(file_path);
        s.append("\n\n");
        proof {
            assert(s@ =~= footer_chars(file_path@));
        }
        s
    }

    /// Strips `root` from the front of `file_path` when it is a leading
    /// directory of it; a path that does not lie under `root` comes back
    /// unchanged.
    pub fn to_relative_path(root: &str, file_path: &str) -> (r: String)
        ensures
            r@ == strip_root(root@, file_path@),
    {
        let rl = root.unicode_len();
        let pl = file_path.unicode_len();
        if rl == 0 || pl < rl {
            return String::from_str(file_path);
        }
        let mut i: usize = 0;
        let mut same = true;
        proof {
            assert(file_path@.subrange(0, 0) =~= root@.subrange(0, 0));
        }
        while i < rl
            invariant
                i <= rl,
                rl == root@.len(),
                rl <= pl == file_path@.len(),
                same <==> file_path@.subrange(0, i as int) == root@.subrange(0, i as int),
            decreases rl - i,
        {
            if file_path.get_char(i) != root.get_char(i) {
                proof {
                    assert(file_path@.subrange(0, i + 1)[i as int] != root@.subrange(
                        0,
                        i + 1,
                    )[i as int]);
                }
                same = false;
            } else {
                proof {
                    if same {
                        assert(file_path@.subrange(0, i + 1) =~= root@.subrange(0, i + 1));
                    } else {
                        assert(file_path@.subrange(0, i as int) =~= file_path@.subrange(
                            0,
                            i + 1,
                        ).subrange(0, i as int));
                        assert(root@.subrange(0, i as int) =~= root@.subrange(0, i + 1).subrange(
                            0,
                            i as int,
                        ));
                    }
                }
            }
            i += 1;
        }
        proof {
            assert(root@.subrange(0, rl as int) =~= root@);
        }
        if !same {
            return String::from_str(file_path);
        }
        if pl == rl {
            proof {
                assert(file_path@.subrange(0, rl as int) =~= file_path@);
            }
            return String::new();
        }
        if file_path.get_char(rl) == '/' {
            let rest = file_path.substring_char(rl + 1, pl);
            return String::from_str(rest);
        }
        if root.get_char(rl - 1) == '/' {
            let rest = file_path.substring_char(rl, pl);
            return String::from_str(rest);
        }
        String::from_str(file_path)
    }

    /// Byte size of the current page header.
    pub fn get_page_header_size(&self) -> (n: u64)
        ensures
            n == byte_len(self.header@),
    {
        self.header.as_str().as_bytes().len() as u64
    }

    /// Byte size of the current page footer.
    pub fn get_page_footer_size(&self) -> (n: u64)
        ensures
            n == byte_len(self.footer@),
    {
        self.footer.as_str().as_bytes().len() as u64
    }

    /// Moves the tracker to the next page of the same file: the page number
    /// grows by one and the frame is re-rendered and re-measured.
    pub fn increment_page_number(&mut self)
        requires
            old(self).wf(),
            old(self).page_nubmer < u64::MAX,
        ensures
            final(self).wf(),
            final(self).page_nubmer == old(self).page_nubmer + 1,
            final(self).file_path@ == old(self).file_path@,
    {
        self.page_nubmer = self.page_nubmer + 1;
        self.header = PageFormat::create_page_header(self.file_path.as_str(), self.page_nubmer);
        self.footer = PageFormat::create_page_footer(self.file_path.as_str());
        self.header_size = self.get_page_header_size();
        self.footer_size = self.get_page_footer_size();
    }
}

} // verus!
