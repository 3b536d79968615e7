//! Extraction of dylib references from Mach-O load commands, for
//! dylib-hijack inspection. The object file itself is read by an
//! outside loader; this module works on the raw image bytes and the
//! plain (kind, offset, name-offset) triples of its load commands.

use crate::util::is_valid_utf8;
use vstd::prelude::*;
use vstd::utf8::valid_utf8;

verus! {

/// Index of the first zero byte of `s` at or after `i`, or `s.len()`
/// if there is none.
pub open spec fn first_nul(s: Seq<u8>, i: int) -> int
    decreases s.len() - i,
{
    if i < 0 || i >= s.len() {
        s.len() as int
    } else if s[i] == 0 {
        i
    } else {
        first_nul(s, i + 1)
    }
}

/// The NUL-terminated string at `off`: its bytes up to the first zero
/// byte, which must exist and enclose valid UTF-8.
pub open spec fn cstr_at_spec(s: Seq<u8>, off: int) -> Option<Seq<u8>> {
    if off < 0 || off >= s.len() {
        None
    } else {
        let e = first_nul(s, off);
        if e >= s.len() {
            None
        } else {
            let seg = s.subrange(off, e);
            if valid_utf8(seg) {
                Some(seg)
            } else {
                None
            }
        }
    }
}

/// Reads the NUL-terminated UTF-8 string at `offset`, exactly as
/// `cstr_at_spec` states.
pub fn cstr_at(bytes: &[u8], offset: usize) -> (r: Option<Vec<u8>>)
    ensures
        match cstr_at_spec(bytes@, offset as int) {
            None => r is None,
            Some(seg) => r is Some && r.unwrap()@ == seg,
        },
{
    if offset >= bytes.len() {
        return None;
    }
    let mut e = offset;
    while e < bytes.len() && bytes[e] != 0
        invariant
            offset <= e <= bytes@.len(),
            first_nul(bytes@, offset as int) == first_nul(bytes@, e as int),
        decreases bytes@.len() - e,
    {
        e += 1;
    }
    if e == bytes.len() {
        return None;
    }
    let seg_slice = vstd::slice::slice_subrange(bytes, offset, e);
    if !is_valid_utf8(seg_slice) {
        return None;
    }
    let mut seg: Vec<u8> = Vec::new();
    seg.extend_from_slice(seg_slice);
    proof {
        assert(seg@ =~= bytes@.subrange(offset as int, e as int));
    }
    Some(seg)
}

/// One load command, reduced to what the extraction reads: the
/// command's file offset and the offset of its name or path field.
pub enum LoadCommand {
    /// A dylib the image links against (including lazy and upward
    /// loads).
    Load { offset: usize, name_off: u32 },
    /// A weakly linked dylib.
    Weak { offset: usize, name_off: u32 },
    /// A re-exported dylib.
    Reexport { offset: usize, name_off: u32 },
    /// A run-path entry.
    Rpath { offset: usize, path_off: u32 },
    /// Any other command; carries nothing the extraction reads.
    Other,
}

/// The four name lists extracted from a command sequence.
pub struct MachOLists {
    pub load_dylibs: Seq<Seq<u8>>,
    pub weak_dylibs: Seq<Seq<u8>>,
    pub rpaths: Seq<Seq<u8>>,
    pub reexport_dylibs: Seq<Seq<u8>>,
}

/// The lists extracted from the first `n` commands: each command's
/// string is read at its offset plus its name field; a command whose
/// string is missing or malformed contributes nothing.
pub open spec fn extract_upto(bytes: Seq<u8>, cmds: Seq<LoadCommand>, n: int) -> MachOLists
    decreases n,
{
    if n <= 0 {
        MachOLists {
            load_dylibs: Seq::empty(),
            weak_dylibs: Seq::empty(),
            rpaths: Seq::empty(),
            reexport_dylibs: Seq::empty(),
        }
    } else {
        let prev = extract_upto(bytes, cmds, n - 1);
        match cmds[n - 1] {
            LoadCommand::Load { offset, name_off } => {
                match cstr_at_spec(bytes, offset + name_off) {
                    Some(s) => MachOLists { load_dylibs: prev.load_dylibs.push(s), ..prev },
                    None => prev,
                }
            },
            LoadCommand::Weak { offset, name_off } => {
                match cstr_at_spec(bytes, offset + name_off) {
                    Some(s) => MachOLists { weak_dylibs: prev.weak_dylibs.push(s), ..prev },
                    None => prev,
                }
            },
            LoadCommand::Reexport { offset, name_off } => {
                match cstr_at_spec(bytes, offset + name_off) {
                    Some(s) => MachOLists {
                        reexport_dylibs: prev.reexport_dylibs.push(s),
                        ..prev
                    },
                    None => prev,
                }
            },
            LoadCommand::Rpath { offset, path_off } => {
                match cstr_at_spec(bytes, offset + path_off) {
                    Some(s) => MachOLists { rpaths: prev.rpaths.push(s), ..prev },
                    None => prev,
                }
            },
            LoadCommand::Other => prev,
        }
    }
}

/// The extracted references of a Mach-O image.
pub struct MachOInfo {
    pub load_dylibs: Vec<Vec<u8>>,
    pub weak_dylibs: Vec<Vec<u8>>,
    pub rpaths: Vec<Vec<u8>>,
    pub reexport_dylibs: Vec<Vec<u8>>,
    pub file_type: u32,
}

fn cstr_at_sum(bytes: &[u8], base: usize, delta: u32) -> (r: Option<Vec<u8>>)
    ensures
        match cstr_at_spec(bytes@, base as int + delta as int) {
            None => r is None,
            Some(seg) => r is Some && r.unwrap()@ == seg,
        },
{
    let n = bytes.len();
    if base > usize::MAX - delta as usize || base + delta as usize > n {
        assert(base as int + delta as int > bytes@.len());
        None
    } else {
        cstr_at(bytes, base + delta as usize)
    }
}

/// Walks the load commands and collects linked, weak and re-exported
/// dylib names and run paths, exactly as `extract_upto` states.
pub fn extract_info(bytes: &[u8], cmds: &Vec<LoadCommand>, file_type: u32) -> (r: MachOInfo)
    ensures
        ({
            let m = extract_upto(bytes@, cmds@, cmds@.len() as int);
            &&& r.load_dylibs.deep_view() == m.load_dylibs
            &&& r.weak_dylibs.deep_view() == m.weak_dylibs
            &&& r.rpaths.deep_view() == m.rpaths
            &&& r.reexport_dylibs.deep_view() == m.reexport_dylibs
            &&& r.file_type == file_type
        }),
{
    let mut load_dylibs: Vec<Vec<u8>> = Vec::new();
    let mut weak_dylibs: Vec<Vec<u8>> = Vec::new();
    let mut rpaths: Vec<Vec<u8>> = Vec::new();
    let mut reexport_dylibs: Vec<Vec<u8>> = Vec::new();
    let mut i: usize = 0;
    while i < cmds.len()
        invariant
            0 <= i <= cmds@.len(),
            ({
                let m = extract_upto(bytes@, cmds@, i as int);
                &&& load_dylibs.deep_view() == m.load_dylibs
                &&& weak_dylibs.deep_view() == m.weak_dylibs
                &&& rpaths.deep_view() == m.rpaths
                &&& reexport_dylibs.deep_view() == m.reexport_dylibs
            }),
        decreases cmds@.len() - i,
    {
        match &cmds[i] {
            LoadCommand::Load { offset, name_off } => {
                match cstr_at_sum(bytes, *offset, *name_off) {
                    Some(s) => {
                        let ghost old_dv = load_dylibs.deep_view();
                        let ghost s_spec = s@;
                        load_dylibs.push(s);
                        proof {
                            assert(load_dylibs.deep_view() =~~= old_dv.push(s_spec));
                        }
                    },
                    None => {},
                }
            },
            LoadCommand::Weak { offset, name_off } => {
                match cstr_at_sum(bytes, *offset, *name_off) {
                    Some(s) => {
                        let ghost old_dv = weak_dylibs.deep_view();
                        let ghost s_spec = s@;
                        weak_dylibs.push(s);
                        proof {
                            assert(weak_dylibs.deep_view() =~~= old_dv.push(s_spec));
                        }
                    },
                    None => {},
                }
            },
            LoadCommand::Reexport { offset, name_off } => {
                match cstr_at_sum(bytes, *offset, *name_off) {
                    Some(s) => {
                        let ghost old_dv = reexport_dylibs.deep_view();
                        let ghost s_spec = s@;
                        reexport_dylibs.push(s);
                        proof {
                            assert(reexport_dylibs.deep_view() =~~= old_dv.push(s_spec));
                        }
                    },
                    None => {},
                }
            },
            LoadCommand::Rpath { offset, path_off } => {
                match cstr_at_sum(bytes, *offset, *path_off) {
                    Some(s) => {
                        let ghost old_dv = rpaths.deep_view();
                        let ghost s_spec = s@;
                        rpaths.push(s);
                        proof {
                            assert(rpaths.deep_view() =~~= old_dv.push(s_spec));
                        }
                    },
                    None => {},
                }
            },
            LoadCommand::Other => {},
        }
        i += 1;
    }
    MachOInfo { load_dylibs, weak_dylibs, rpaths, reexport_dylibs, file_type }
}

/// The magic of a multi-architecture (fat) image, in either byte
/// order.
pub fn is_fat_magic(bytes: &[u8]) -> (r: bool)
    ensures
        r == (bytes@.len() >= 4 && ((bytes@[0] == 0xca && bytes@[1] == 0xfe && bytes@[2] == 0xba
            && bytes@[3] == 0xbe) || (bytes@[0] == 0xbe && bytes@[1] == 0xba && bytes@[2] == 0xfe
            && bytes@[3] == 0xca))),
{
    bytes.len() >= 4 && ((bytes[0] == 0xca && bytes[1] == 0xfe && bytes[2] == 0xba && bytes[3]
        == 0xbe) || (bytes[0] == 0xbe && bytes[1] == 0xba && bytes[2] == 0xfe && bytes[3] == 0xca))
}

} // verus!
