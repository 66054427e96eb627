//! ELF dependency resolution: the program interpreter, the run-time search
//! paths and the needed libraries of an object, read from its bytes with the
//! `elf` crate, and the search that turns library names into paths.
use vstd::prelude::*;
use vstd::utf8::{valid_utf8, decode_utf8};
use crate::path::{Comp, components, join, join_spec, parent, parent_spec, path_equal, paths_equal, is_absolute, has_root, file_name, file_name_spec};
use crate::text::{split_on, split_str, replace_all, replace_str, trim_nul_end, trim_nul_end_str};
use crate::pathset::{strings_view, paths_sorted, path_set, path_set_insert, clone_strings, lemma_path_set_push};

verus! {

/// `elf::ParseError`, carried in the library's errors.
#[verifier::external_type_specification]
#[verifier::external_body]
pub struct ExElfParseError(elf::ParseError);

/// `elf::string_table::StringTable`, a table of NUL-terminated strings.
#[verifier::external_type_specification]
#[verifier::external_body]
pub struct ExStringTable<'a>(elf::string_table::StringTable<'a>);

/// Program header type of the segment naming the program interpreter.
pub const PT_INTERP: u32 = 3;
/// Dynamic entry naming a needed library.
pub const DT_NEEDED: i64 = 1;
/// Dynamic entry holding the (legacy) run-time search path.
pub const DT_RPATH: i64 = 15;
/// Dynamic entry holding the run-time search path.
pub const DT_RUNPATH: i64 = 29;

/// Errors of the dependency resolution.
#[derive(Debug)]
pub enum ElfError {
    /// A file could not be read.
    Io(std::io::Error),
    /// The object's tables could not be parsed.
    Parse(elf::ParseError),
    /// The file (its canonical path) is not an ELF object.
    NotElf(String),
    /// A needed library (its name) was not found for an object (its path).
    LibraryNotFound(String, String),
}

/// Whether `elf::ElfBytes::<AnyEndian>::minimal_parse` accepts the bytes.
pub uninterp spec fn elf_parses(data: Seq<u8>) -> bool;

/// The program headers (type, file offset, file size) that
/// `ElfBytes::segments` gives for the bytes, `None` where there is no
/// program header table.
pub uninterp spec fn elf_program_headers(data: Seq<u8>) -> Option<Seq<(u32, u64, u64)>>;

/// What `ElfBytes::find_common_data` finds in the bytes: `None` if it fails;
/// otherwise the entries (tag, value) of the dynamic table and the bytes of
/// the string table of the dynamic symbols, each where the object has one.
pub uninterp spec fn elf_dynamic_section(data: Seq<u8>) -> Option<(Option<Seq<(i64, u64)>>, Option<Seq<u8>>)>;

/// The bytes a string table holds.
pub uninterp spec fn table_bytes(t: elf::string_table::StringTable) -> Seq<u8>;

/// What `StringTable::get` finds at an offset of a table: the bytes from the
/// offset up to the first NUL after it, read as UTF-8; `None` where the
/// table is empty, the offset lies past its end, no NUL follows it, or the
/// bytes are not UTF-8.
pub open spec fn table_string_at(table: Seq<u8>, offset: int) -> Option<Seq<char>> {
    if table.len() == 0 || offset > table.len() || !(exists|k: int| offset <= k < table.len() && table[k] == 0) {
        None
    } else {
        let end = choose|k: int|
            offset <= k < table.len() && table[k] == 0 && forall|j: int| offset <= j < k ==> table[j] != 0;
        let raw = table.subrange(offset, end);
        if valid_utf8(raw) {
            Some(decode_utf8(raw))
        } else {
            None
        }
    }
}

/// The dynamic entries of an object with their strings: each entry's tag,
/// and the string of the dynamic string table at its value; `None` where the
/// tables cannot be read, `Some(None)` where the object lacks the dynamic
/// table or its string table.
pub open spec fn dynamic_entries_of(data: Seq<u8>) -> Option<Option<Seq<(i64, Option<Seq<char>>)>>> {
    match elf_dynamic_section(data) {
        None => None,
        Some((Some(d), Some(t))) => Some(Some(d.map_values(|e: (i64, u64)| (e.0, table_string_at(t, (e.1 as usize) as int))))),
        Some(_) => Some(None),
    }
}

/// The views of the dynamic table and of its string table.
pub open spec fn section_view(d: Option<Vec<(i64, u64)>>, t: Option<elf::string_table::StringTable>) -> (Option<Seq<(i64, u64)>>, Option<Seq<u8>>) {
    (
        match d {
            Some(v) => Some(v@),
            None => None,
        },
        match t {
            Some(x) => Some(table_bytes(x)),
            None => None,
        },
    )
}

/// The views of program headers.
pub open spec fn segments_view(v: Option<Vec<(u32, u64, u64)>>) -> Option<Seq<(u32, u64, u64)>> {
    match v {
        Some(s) => Some(s@),
        None => None,
    }
}

/// The view of an optional string.
pub open spec fn opt_string(o: Option<String>) -> Option<Seq<char>> {
    match o {
        Some(s) => Some(s@),
        None => None,
    }
}

/// The views of dynamic entries.
pub open spec fn dyn_view(v: Seq<(i64, Option<String>)>) -> Seq<(i64, Option<Seq<char>>)> {
    v.map_values(|e: (i64, Option<String>)| (e.0, opt_string(e.1)))
}

/// The view of an optional dynamic table.
pub open spec fn dynamic_view(v: Option<Vec<(i64, Option<String>)>>) -> Option<Seq<(i64, Option<Seq<char>>)>> {
    match v {
        Some(d) => Some(dyn_view(d@)),
        None => None,
    }
}

/// Checks the ELF file header (`ElfBytes::<AnyEndian>::minimal_parse`).
#[verifier::external_body]
fn elf_header_check(data: &[u8]) -> (r: bool)
    ensures
        r == elf_parses(data@),
{
    elf::ElfBytes::<elf::endian::AnyEndian>::minimal_parse(data).is_ok()
}

/// The program headers of an object (`ElfBytes::minimal_parse`, then
/// `segments`, each header's type, offset and file size).
#[verifier::external_body]
fn elf_segments(data: &[u8]) -> (r: Option<Vec<(u32, u64, u64)>>)
    requires
        elf_parses(data@),
    ensures
        segments_view(r) == elf_program_headers(data@),
{
    match elf::ElfBytes::<elf::endian::AnyEndian>::minimal_parse(data) {
        Ok(e) => e.segments().map(|t| t.iter().map(|p| (p.p_type, p.p_offset, p.p_filesz)).collect()),
        Err(_) => None,
    }
}

/// The dynamic table of an object, each entry's tag and value, and the
/// string table of its dynamic symbols (`ElfBytes::minimal_parse`, then
/// `find_common_data`: its `dynamic` and `dynsyms_strs`).
#[verifier::external_body]
fn elf_common_data<'a>(data: &'a [u8]) -> (r: Result<
    (Option<Vec<(i64, u64)>>, Option<elf::string_table::StringTable<'a>>),
    elf::ParseError,
>)
    requires
        elf_parses(data@),
    ensures
        match r {
            Ok(c) => elf_dynamic_section(data@) == Some(section_view(c.0, c.1)),
            Err(_) => elf_dynamic_section(data@) is None,
        },
{
    let c = elf::ElfBytes::<elf::endian::AnyEndian>::minimal_parse(data)?.find_common_data()?;
    Ok((c.dynamic.map(|d| d.iter().map(|x| (x.d_tag, x.d_val())).collect()), c.dynsyms_strs))
}

/// The string at an offset of a string table (`StringTable::get`, the
/// offset taken as `usize`).
#[verifier::external_body]
fn table_string(t: &elf::string_table::StringTable, offset: u64) -> (r: Option<String>)
    ensures
        opt_string(r) == table_string_at(table_bytes(*t), (offset as usize) as int),
{
    t.get(offset as usize).ok().map(|s| s.to_string())
}

/// The dynamic entries of an object with their strings; `None` where the
/// object lacks the dynamic table or its string table.
fn elf_dynamic(data: &[u8]) -> (r: Result<Option<Vec<(i64, Option<String>)>>, elf::ParseError>)
    requires
        elf_parses(data@),
    ensures
        match r {
            Ok(d) => dynamic_entries_of(data@) == Some(dynamic_view(d)),
            Err(_) => dynamic_entries_of(data@) is None,
        },
{
    let (dynamic, strings) = match elf_common_data(data) {
        Ok(c) => c,
        Err(e) => {
            return Err(e);
        },
    };
    match (dynamic, strings) {
        (Some(d), Some(t)) => {
            let ghost tb = table_bytes(t);
            let mut out: Vec<(i64, Option<String>)> = Vec::new();
            let mut i: usize = 0;
            while i < d.len()
                invariant
                    i <= d.len(),
                    tb == table_bytes(t),
                    dyn_view(out@) == d@.take(i as int).map_values(
                        |e: (i64, u64)| (e.0, table_string_at(tb, (e.1 as usize) as int)),
                    ),
                decreases d.len() - i,
            {
                let ghost before = out@;
                let (tag, val) = d[i];
                let name = table_string(&t, val);
                out.push((tag, name));
                assert(dyn_view(out@) =~= dyn_view(before).push((tag, opt_string(name))));
                assert(d@.take(i + 1) =~= d@.take(i as int).push(d@[i as int]));
                i = i + 1;
            }
            assert(d@.take(d.len() as int) =~= d@);
            Ok(Some(out))
        },
        _ => Ok(None),
    }
}

/// `elf::ParseError::BadMagic([0, 0, 0, 0])`: the error reported for an
/// object without program headers.
#[verifier::external_body]
fn missing_segments_error() -> (r: elf::ParseError) {
    elf::ParseError::BadMagic([0, 0, 0, 0])
}

/// The text of bytes that are valid UTF-8 (`std::str::from_utf8`).
#[verifier::external_body]
fn utf8_text(bytes: &[u8]) -> (r: Option<String>)
    ensures
        match r {
            Some(s) => valid_utf8(bytes@) && s@ == decode_utf8(bytes@),
            None => !valid_utf8(bytes@),
        },
{
    std::str::from_utf8(bytes).ok().map(|s| s.to_string())
}

/// The interpreter path held in a `PT_INTERP` segment: its bytes decoded
/// (nothing if they are not UTF-8), without trailing NULs.
pub open spec fn interp_text(bytes: Seq<u8>) -> Seq<char> {
    if valid_utf8(bytes) {
        trim_nul_end(decode_utf8(bytes))
    } else {
        Seq::empty()
    }
}

/// The bytes of a segment, where it lies within the file.
pub open spec fn segment_bytes(seg: (u32, u64, u64), data: Seq<u8>) -> Option<Seq<u8>> {
    if seg.1 + seg.2 <= data.len() {
        Some(data.subrange(seg.1 as int, seg.1 + seg.2))
    } else {
        None
    }
}

/// The program interpreter: the path named by the first `PT_INTERP` segment
/// that lies within the file and names a non-empty path.
pub open spec fn interpreter_of(segs: Seq<(u32, u64, u64)>, data: Seq<u8>) -> Option<Seq<char>>
    decreases segs.len(),
{
    if segs.len() == 0 {
        None
    } else {
        let s = segs[0];
        match segment_bytes(s, data) {
            Some(b) if s.0 == PT_INTERP && interp_text(b).len() > 0 => Some(interp_text(b)),
            _ => interpreter_of(segs.drop_first(), data),
        }
    }
}

/// Gets the interpreter path from the `PT_INTERP` program header, given the
/// object's program headers (none: a parse error) and its bytes.
pub fn get_interpreter(segments: &Option<Vec<(u32, u64, u64)>>, data: &[u8]) -> (r: Result<Option<String>, ElfError>)
    ensures
        match segments {
            None => r matches Err(ElfError::Parse(_)),
            Some(s) => r is Ok && opt_string(r->Ok_0) == interpreter_of(s@, data@),
        },
{
    let segs = match segments {
        None => {
            return Err(ElfError::Parse(missing_segments_error()));
        },
        Some(s) => s,
    };
    let n: usize = data.len();
    let len: u64 = n as u64;
    let mut i: usize = 0;
    assert(segs@.skip(0) =~= segs@);
    while i < segs.len()
        invariant
            i <= segs.len(),
            segments_view(*segments) == Some(segs@),
            n == data@.len(),
            len == n,
            interpreter_of(segs@, data@) == interpreter_of(segs@.skip(i as int), data@),
        decreases segs.len() - i,
    {
        let (p_type, p_offset, p_filesz) = segs[i];
        let ghost rest = segs@.skip(i as int);
        assert(rest[0] == segs@[i as int]);
        assert(rest.drop_first() =~= segs@.skip(i + 1));
        if p_type == PT_INTERP && p_offset <= len && p_filesz <= len - p_offset {
            let start = p_offset as usize;
            let end = (p_offset + p_filesz) as usize;
            assert(start == p_offset && end == p_offset + p_filesz);
            let bytes = vstd::slice::slice_subrange(data, start, end);
            let text = match utf8_text(bytes) {
                Some(t) => trim_nul_end_str(&t),
                None => String::new(),
            };
            if !text.as_str().is_empty() {
                return Ok(Some(text));
            }
        }
        i = i + 1;
    }
    Ok(None)
}

/// The string of the last entry with the given tag whose string could be
/// read (each such entry replaces the one before).
pub open spec fn last_with_tag(entries: Seq<(i64, Option<Seq<char>>)>, tag: i64) -> Option<Seq<char>>
    decreases entries.len(),
{
    if entries.len() == 0 {
        None
    } else if entries.last().0 == tag && entries.last().1 is Some {
        entries.last().1
    } else {
        last_with_tag(entries.drop_last(), tag)
    }
}

/// `RPATH` and `RUNPATH` of a dynamic table.
pub open spec fn rpath_runpath_of(dynamic: Option<Seq<(i64, Option<Seq<char>>)>>) -> Option<(Option<Seq<char>>, Option<Seq<char>>)> {
    match dynamic {
        Some(d) => Some((last_with_tag(d, DT_RPATH), last_with_tag(d, DT_RUNPATH))),
        None => None,
    }
}

/// The view of what `get_rpath_runpath` returns.
pub open spec fn rpath_runpath_view(v: Option<(Option<String>, Option<String>)>) -> Option<(Option<Seq<char>>, Option<Seq<char>>)> {
    match v {
        Some((a, b)) => Some((opt_string(a), opt_string(b))),
        None => None,
    }
}

/// Gets `RPATH` and `RUNPATH` from the dynamic section, given its entries
/// (none where the object has no dynamic table with strings).
pub fn get_rpath_runpath(dynamic: &Option<Vec<(i64, Option<String>)>>) -> (r: Option<(Option<String>, Option<String>)>)
    ensures
        rpath_runpath_view(r) == rpath_runpath_of(dynamic_view(*dynamic)),
{
    let d = match dynamic {
        None => {
            return None;
        },
        Some(d) => d,
    };
    let ghost dv = dyn_view(d@);
    let mut rpath: Option<String> = None;
    let mut runpath: Option<String> = None;
    let mut i: usize = 0;
    while i < d.len()
        invariant
            i <= d.len(),
            dv == dyn_view(d@),
            opt_string(rpath) == last_with_tag(dv.take(i as int), DT_RPATH),
            opt_string(runpath) == last_with_tag(dv.take(i as int), DT_RUNPATH),
        decreases d.len() - i,
    {
        proof {
            assert(dv.take(i + 1).drop_last() =~= dv.take(i as int));
            assert(dv.take(i + 1).last() == dv[i as int]);
        }
        let tag = d[i].0;
        match &d[i].1 {
            Some(s) => {
                if tag == DT_RPATH {
                    rpath = Some(s.clone());
                } else if tag == DT_RUNPATH {
                    runpath = Some(s.clone());
                }
            },
            None => {},
        }
        i = i + 1;
    }
    assert(dv.take(d.len() as int) =~= dv);
    Some((rpath, runpath))
}

/// The names of the needed libraries: the strings of the `DT_NEEDED`
/// entries that could be read, in order.
pub open spec fn needed_of(entries: Seq<(i64, Option<Seq<char>>)>) -> Seq<Seq<char>>
    decreases entries.len(),
{
    if entries.len() == 0 {
        Seq::empty()
    } else {
        let rest = needed_of(entries.drop_last());
        match entries.last().1 {
            Some(n) if entries.last().0 == DT_NEEDED => rest.push(n),
            _ => rest,
        }
    }
}

/// Gets the list of `DT_NEEDED` library names, given the dynamic entries
/// (none where the object has no dynamic table with strings).
pub fn get_needed_libraries(dynamic: &Option<Vec<(i64, Option<String>)>>) -> (r: Vec<String>)
    ensures
        strings_view(r@) == match dynamic_view(*dynamic) {
            Some(d) => needed_of(d),
            None => Seq::empty(),
        },
{
    let mut needed: Vec<String> = Vec::new();
    let d = match dynamic {
        None => {
            assert(strings_view(needed@) =~= Seq::<Seq<char>>::empty());
            return needed;
        },
        Some(d) => d,
    };
    let ghost dv = dyn_view(d@);
    let mut i: usize = 0;
    assert(strings_view(needed@) =~= needed_of(dv.take(0)));
    while i < d.len()
        invariant
            i <= d.len(),
            dv == dyn_view(d@),
            strings_view(needed@) == needed_of(dv.take(i as int)),
        decreases d.len() - i,
    {
        proof {
            assert(dv.take(i + 1).drop_last() =~= dv.take(i as int));
            assert(dv.take(i + 1).last() == dv[i as int]);
        }
        let tag = d[i].0;
        match &d[i].1 {
            Some(s) => {
                if tag == DT_NEEDED {
                    let ghost before = strings_view(needed@);
                    needed.push(s.clone());
                    assert(strings_view(needed@) =~= before.push(s@));
                }
            },
            None => {},
        }
        i = i + 1;
    }
    assert(dv.take(d.len() as int) =~= dv);
    needed
}

/// What an object's bytes say about its dependencies.
#[derive(Debug)]
pub struct ElfDependencies {
    /// The program interpreter, if any.
    pub interpreter: Option<String>,
    /// `RPATH` and `RUNPATH`, if the object has a dynamic table with strings.
    pub rpath_runpath: Option<(Option<String>, Option<String>)>,
    /// The needed libraries, in order.
    pub needed: Vec<String>,
}

/// Reads the dependencies of an object from its bytes.  Bytes that are not
/// an ELF object are refused with `NotElf` and the object's path; tables
/// that cannot be parsed with `Parse`.
pub fn read_dependencies(data: &[u8], executable_path: &str) -> (r: Result<ElfDependencies, ElfError>)
    ensures
        !elf_parses(data@) ==> (r matches Err(ElfError::NotElf(p)) && p@ == executable_path@),
        elf_parses(data@) ==> match elf_program_headers(data@) {
            None => r matches Err(ElfError::Parse(_)),
            Some(segs) => match dynamic_entries_of(data@) {
                None => r matches Err(ElfError::Parse(_)),
                Some(dynamic) => (r matches Ok(d) && opt_string(d.interpreter) == interpreter_of(segs, data@)
                    && rpath_runpath_view(d.rpath_runpath) == rpath_runpath_of(dynamic)
                    && strings_view(d.needed@) == match dynamic {
                        Some(e) => needed_of(e),
                        None => Seq::empty(),
                    }),
            },
        },
{
    if !elf_header_check(data) {
        return Err(ElfError::NotElf(executable_path.to_string()));
    }
    let segments = elf_segments(data);
    let interpreter = match get_interpreter(&segments, data) {
        Ok(i) => i,
        Err(e) => {
            return Err(e);
        },
    };
    let dynamic = match elf_dynamic(data) {
        Ok(d) => d,
        Err(e) => {
            return Err(ElfError::Parse(e));
        },
    };
    let rpath_runpath = get_rpath_runpath(&dynamic);
    let needed = get_needed_libraries(&dynamic);
    Ok(ElfDependencies { interpreter, rpath_runpath, needed })
}

/// `$ORIGIN` and `${ORIGIN}` in a search path replaced by the directory of
/// the object (the path unchanged if the object has no parent).
pub open spec fn expand_origin_spec(path: Seq<char>, executable: Seq<char>) -> Seq<char> {
    match parent_spec(executable) {
        Some(dir) => replace_all(replace_all(path, "$ORIGIN"@, dir), "${ORIGIN}"@, dir),
        None => path,
    }
}

/// Expands `$ORIGIN` in a path to the directory containing the executable.
pub fn expand_origin(path: &str, executable: &str) -> (r: String)
    ensures
        r@ == expand_origin_spec(path@, executable@),
{
    match parent(executable) {
        Some(dir) => {
            proof {
                reveal_strlit("$ORIGIN");
                reveal_strlit("${ORIGIN}");
            }
            let a = replace_str(path, "$ORIGIN", &dir);
            replace_str(&a, "${ORIGIN}", &dir)
        },
        None => path.to_string(),
    }
}


/// Whether a list of paths holds a path (the same components).
pub open spec fn holds_path(s: Seq<Seq<char>>, p: Seq<char>) -> bool {
    exists|i: int| 0 <= i < s.len() && path_equal(#[trigger] s[i], p)
}

/// The list with each item appended in order, unless the list already holds
/// it at that point.
pub open spec fn append_unique(s: Seq<Seq<char>>, items: Seq<Seq<char>>) -> Seq<Seq<char>>
    decreases items.len(),
{
    if items.len() == 0 {
        s
    } else {
        let t = append_unique(s, items.drop_last());
        if holds_path(t, items.last()) {
            t
        } else {
            t.push(items.last())
        }
    }
}

/// No two paths of a list name the same path.
pub open spec fn paths_distinct(s: Seq<Seq<char>>) -> bool {
    forall|i: int, j: int| 0 <= i < j < s.len() ==> !path_equal(#[trigger] s[i], #[trigger] s[j])
}

/// Law: search paths never hold the same path twice: appending keeps a list
/// of distinct paths distinct, and every appended path is then held.
pub proof fn lemma_append_unique_distinct(s: Seq<Seq<char>>, items: Seq<Seq<char>>)
    requires
        paths_distinct(s),
    ensures
        paths_distinct(append_unique(s, items)),
        forall|k: int| 0 <= k < items.len() ==> holds_path(append_unique(s, items), #[trigger] items[k]),
        s.is_prefix_of(append_unique(s, items)),
    decreases items.len(),
{
    if items.len() > 0 {
        let d = items.drop_last();
        lemma_append_unique_distinct(s, d);
        let t = append_unique(s, d);
        let x = items.last();
        if !holds_path(t, x) {
            let u = t.push(x);
            assert forall|i: int, j: int| 0 <= i < j < u.len() implies !path_equal(#[trigger] u[i], #[trigger] u[j]) by {
                if j == t.len() {
                    assert(u[i] == t[i]);
                    if path_equal(u[i], u[j]) {
                        assert(holds_path(t, x));
                    }
                } else {
                    assert(u[i] == t[i] && u[j] == t[j]);
                }
            }
            assert forall|k: int| 0 <= k < items.len() implies holds_path(u, #[trigger] items[k]) by {
                if k < items.len() - 1 {
                    assert(d[k] == items[k]);
                    assert(holds_path(t, d[k]));
                    let i = choose|i: int| 0 <= i < t.len() && path_equal(#[trigger] t[i], d[k]);
                    assert(u[i] == t[i]);
                } else {
                    assert(u[t.len() as int] == x);
                    assert(path_equal(x, x));
                }
            }
            assert(s.is_prefix_of(u)) by {
                assert forall|i: int| 0 <= i < s.len() implies s[i] == u[i] by {
                    assert(s[i] == t[i]);
                }
            }
        } else {
            assert forall|k: int| 0 <= k < items.len() implies holds_path(t, #[trigger] items[k]) by {
                if k < items.len() - 1 {
                    assert(d[k] == items[k]);
                }
            }
        }
    }
}

/// Appends a path to a list unless the list already holds it.
pub fn push_unique(v: &mut Vec<String>, p: String)
    ensures
        strings_view(final(v)@) == append_unique(strings_view(old(v)@), seq![p@]),
{
    let ghost sv = strings_view(v@);
    proof {
        assert(seq![p@].drop_last() =~= Seq::<Seq<char>>::empty());
        assert(append_unique(sv, seq![p@].drop_last()) == sv);
    }
    let mut k: usize = 0;
    while k < v.len()
        invariant
            k <= v.len(),
            sv == strings_view(v@),
            forall|a: int| 0 <= a < k ==> !path_equal(#[trigger] sv[a], p@),
        decreases v.len() - k,
    {
        assert(sv[k as int] == v@[k as int]@);
        if paths_equal(&v[k], &p) {
            assert(holds_path(sv, p@));
            assert(seq![p@].last() == p@);
            assert(seq![p@].drop_last() =~= Seq::<Seq<char>>::empty());
            assert(append_unique(sv, seq![p@].drop_last()) == sv);
            assert(append_unique(sv, seq![p@]) == sv);
            return;
        }
        k = k + 1;
    }
    let ghost pv = p@;
    v.push(p);
    assert(seq![pv].last() == pv);
    assert(strings_view(v@) =~= sv.push(pv));
}

/// Appends each path in order unless the list already holds it.
pub fn push_all_unique(v: &mut Vec<String>, items: &Vec<String>)
    ensures
        strings_view(final(v)@) == append_unique(strings_view(old(v)@), strings_view(items@)),
{
    let ghost start = strings_view(v@);
    let ghost iv = strings_view(items@);
    let mut i: usize = 0;
    assert(iv.take(0) =~= Seq::<Seq<char>>::empty());
    while i < items.len()
        invariant
            i <= items.len(),
            iv == strings_view(items@),
            strings_view(v@) == append_unique(start, iv.take(i as int)),
        decreases items.len() - i,
    {
        let ghost before = strings_view(v@);
        push_unique(v, items[i].clone());
        proof {
            assert(iv.take(i + 1).drop_last() =~= iv.take(i as int));
            assert(iv.take(i + 1).last() == iv[i as int]);
            assert(seq![iv[i as int]].drop_last() =~= Seq::<Seq<char>>::empty());
            assert(append_unique(before, seq![iv[i as int]].drop_last()) == before);
        }
        i = i + 1;
    }
    assert(iv.take(items.len() as int) =~= iv);
}

/// An optional item as a sequence of at most one item.
pub open spec fn opt_seq(o: Option<Seq<char>>) -> Seq<Seq<char>> {
    match o {
        Some(x) => seq![x],
        None => Seq::empty(),
    }
}

/// The parts of a run-time search path, `$ORIGIN` expanded.
pub open spec fn expanded_parts(s: Option<Seq<char>>, executable: Seq<char>) -> Seq<Seq<char>> {
    match s {
        Some(t) => split_on(t, ':').map_values(|p: Seq<char>| expand_origin_spec(p, executable)),
        None => Seq::empty(),
    }
}

/// The search paths an object adds, in order: its own directory, the
/// directory of its interpreter (where the interpreter exists), then the
/// parts of `RUNPATH` and of `RPATH`, which takes precedence in that order.
pub open spec fn search_additions(
    executable: Seq<char>,
    interpreter: Option<Seq<char>>,
    rpath_runpath: Option<(Option<Seq<char>>, Option<Seq<char>>)>,
) -> Seq<Seq<char>> {
    opt_seq(parent_spec(executable)) + match interpreter {
        Some(i) => opt_seq(parent_spec(i)),
        None => Seq::empty(),
    } + match rpath_runpath {
        Some((rpath, runpath)) => expanded_parts(runpath, executable) + expanded_parts(rpath, executable),
        None => Seq::empty(),
    }
}

/// The expanded parts of a run-time search path.
fn expand_parts(s: &Option<String>, executable: &str) -> (r: Vec<String>)
    ensures
        strings_view(r@) == expanded_parts(opt_string(*s), executable@),
{
    let mut out: Vec<String> = Vec::new();
    match s {
        None => {
            assert(strings_view(out@) =~= Seq::<Seq<char>>::empty());
        },
        Some(t) => {
            let parts = split_str(t, ':');
            let ghost pv = strings_view(parts@);
            assert(pv == split_on(t@, ':'));
            let mut i: usize = 0;
            while i < parts.len()
                invariant
                    i <= parts.len(),
                    pv == strings_view(parts@),
                    strings_view(out@) == pv.take(i as int).map_values(|p: Seq<char>| expand_origin_spec(p, executable@)),
                decreases parts.len() - i,
            {
                let e = expand_origin(&parts[i], executable);
                let ghost before = strings_view(out@);
                out.push(e);
                proof {
                    assert(strings_view(out@) =~= before.push(e@));
                    assert(pv.take(i + 1).map_values(|p: Seq<char>| expand_origin_spec(p, executable@)) =~= pv.take(
                        i as int,
                    ).map_values(|p: Seq<char>| expand_origin_spec(p, executable@)).push(expand_origin_spec(pv[i as int], executable@)));
                }
                i = i + 1;
            }
            assert(pv.take(parts.len() as int) =~= pv);
        },
    }
    out
}

/// The search paths of an object: those it inherits, then those it adds
/// that are not there yet.
pub fn object_search_paths(
    inherited: &Vec<String>,
    executable: &str,
    interpreter: Option<&str>,
    rpath_runpath: &Option<(Option<String>, Option<String>)>,
) -> (r: Vec<String>)
    ensures
        strings_view(r@) == append_unique(
            strings_view(inherited@),
            search_additions(executable@, match interpreter {
                Some(i) => Some(i@),
                None => None,
            }, rpath_runpath_view(*rpath_runpath)),
        ),
{
    let mut items: Vec<String> = Vec::new();
    match parent(executable) {
        Some(d) => items.push(d),
        None => {},
    }
    match interpreter {
        Some(i) => match parent(i) {
            Some(d) => items.push(d),
            None => {},
        },
        None => {},
    }
    let ghost head = strings_view(items@);
    match rpath_runpath {
        Some((rpath, runpath)) => {
            let a = expand_parts(runpath, executable);
            let b = expand_parts(rpath, executable);
            let mut j: usize = 0;
            while j < a.len()
                invariant
                    j <= a.len(),
                    strings_view(items@) == head + strings_view(a@).take(j as int),
                decreases a.len() - j,
            {
                let ghost old_items = strings_view(items@);
                items.push(a[j].clone());
                assert(strings_view(items@) =~= old_items.push(a@[j as int]@));
                assert(strings_view(a@).take(j + 1) =~= strings_view(a@).take(j as int).push(a@[j as int]@));
                assert(strings_view(items@) =~= head + strings_view(a@).take(j + 1));
                j = j + 1;
            }
            assert(strings_view(a@).take(a.len() as int) =~= strings_view(a@));
            let ghost mid = strings_view(items@);
            let mut k: usize = 0;
            while k < b.len()
                invariant
                    k <= b.len(),
                    strings_view(items@) == mid + strings_view(b@).take(k as int),
                decreases b.len() - k,
            {
                let ghost old_items = strings_view(items@);
                items.push(b[k].clone());
                assert(strings_view(items@) =~= old_items.push(b@[k as int]@));
                assert(strings_view(b@).take(k + 1) =~= strings_view(b@).take(k as int).push(b@[k as int]@));
                assert(strings_view(items@) =~= mid + strings_view(b@).take(k + 1));
                k = k + 1;
            }
            assert(strings_view(b@).take(b.len() as int) =~= strings_view(b@));
            assert(strings_view(items@) =~= head + (strings_view(a@) + strings_view(b@)));
        },
        None => {
            assert(strings_view(items@) =~= head + Seq::<Seq<char>>::empty());
        },
    }
    proof {
        let iv = match interpreter {
            Some(i) => Some(i@),
            None => None,
        };
        assert(head =~= opt_seq(parent_spec(executable@)) + match iv {
            Some(i) => opt_seq(parent_spec(i)),
            None => Seq::empty(),
        });
    }
    let mut r = inherited.clone();
    assert(strings_view(r@) =~= strings_view(inherited@));
    push_all_unique(&mut r, &items);
    r
}

/// Where a library is looked for, in order: an absolute name as it is,
/// otherwise the name beneath each search path.
pub open spec fn library_candidates_spec(name: Seq<char>, search_paths: Seq<Seq<char>>) -> Seq<Seq<char>> {
    if has_root(name) {
        seq![name]
    } else {
        search_paths.map_values(|sp: Seq<char>| join_spec(sp, name))
    }
}

/// The paths where a library is looked for, in order; the library is the
/// first of them that exists.
pub fn library_candidates(name: &str, search_paths: &Vec<String>) -> (r: Vec<String>)
    ensures
        strings_view(r@) == library_candidates_spec(name@, strings_view(search_paths@)),
{
    let mut out: Vec<String> = Vec::new();
    if is_absolute(name) {
        out.push(name.to_string());
        assert(strings_view(out@) =~= seq![name@]);
        return out;
    }
    let ghost sv = strings_view(search_paths@);
    let mut i: usize = 0;
    while i < search_paths.len()
        invariant
            i <= search_paths.len(),
            sv == strings_view(search_paths@),
            strings_view(out@) == sv.take(i as int).map_values(|sp: Seq<char>| join_spec(sp, name@)),
        decreases search_paths.len() - i,
    {
        let c = join(&search_paths[i], name);
        let ghost before = strings_view(out@);
        out.push(c);
        proof {
            assert(strings_view(out@) =~= before.push(c@));
            assert(sv.take(i + 1).map_values(|sp: Seq<char>| join_spec(sp, name@)) =~= sv.take(i as int).map_values(
                |sp: Seq<char>| join_spec(sp, name@),
            ).push(join_spec(sv[i as int], name@)));
        }
        i = i + 1;
    }
    assert(sv.take(search_paths.len() as int) =~= sv);
    out
}


/// Information about an executable and its required libraries.
#[derive(Debug)]
pub struct ExecutableInfo {
    /// Absolute path to the executable itself.
    pub executable_path: String,
    /// Absolute paths to all required shared libraries, sorted as paths,
    /// each path once.
    pub library_paths: Vec<String>,
    /// Path to the dynamic linker/interpreter.
    pub interpreter: Option<String>,
}

impl ExecutableInfo {
    /// The library paths form a sorted set.
    pub open spec fn wf(&self) -> bool {
        paths_sorted(strings_view(self.library_paths@))
    }

    /// Every path the executable needs: itself, its libraries and its
    /// interpreter, as a sorted set of paths.
    pub fn all_paths(&self) -> (r: Vec<String>)
        ensures
            paths_sorted(strings_view(r@)),
            path_set(strings_view(r@)) == path_set(strings_view(self.library_paths@)).insert(
                components(self.executable_path@),
            ).union(match self.interpreter {
                Some(i) => set![components(i@)],
                None => Set::empty(),
            }),
    {
        let mut all: Vec<String> = Vec::new();
        proof {
            assert(path_set(strings_view(all@)) =~= Set::<Seq<Comp>>::empty());
        }
        path_set_insert(&mut all, self.executable_path.clone());
        let ghost lv = strings_view(self.library_paths@);
        let mut i: usize = 0;
        while i < self.library_paths.len()
            invariant
                i <= self.library_paths.len(),
                lv == strings_view(self.library_paths@),
                paths_sorted(strings_view(all@)),
                path_set(strings_view(all@)) == path_set(lv.take(i as int)).insert(components(self.executable_path@)),
            decreases self.library_paths.len() - i,
        {
            path_set_insert(&mut all, self.library_paths[i].clone());
            proof {
                let t = lv.take(i as int);
                assert(lv.take(i + 1) =~= t.push(lv[i as int]));
                assert(path_set(t.push(lv[i as int])) =~= path_set(t).insert(components(lv[i as int]))) by {
                    assert forall|c| path_set(t.push(lv[i as int])).contains(c) implies path_set(t).insert(
                        components(lv[i as int]),
                    ).contains(c) by {
                        let k = choose|k: int| 0 <= k < t.len() + 1 && components(t.push(lv[i as int])[k]) == c;
                        if k < t.len() {
                            assert(t.push(lv[i as int])[k] == t[k]);
                        }
                    }
                    assert forall|c| path_set(t).insert(components(lv[i as int])).contains(c) implies path_set(
                        t.push(lv[i as int]),
                    ).contains(c) by {
                        if path_set(t).contains(c) {
                            let k = choose|k: int| 0 <= k < t.len() && components(t[k]) == c;
                            assert(t.push(lv[i as int])[k] == t[k]);
                        } else {
                            assert(t.push(lv[i as int])[t.len() as int] == lv[i as int]);
                        }
                    }
                }
                assert(path_set(strings_view(all@)) =~= path_set(lv.take(i + 1)).insert(components(self.executable_path@)));
            }
            i = i + 1;
        }
        assert(lv.take(self.library_paths.len() as int) =~= lv);
        match &self.interpreter {
            Some(interp) => {
                path_set_insert(&mut all, interp.clone());
            },
            None => {},
        }
        proof {
            let base = path_set(lv).insert(components(self.executable_path@));
            match &self.interpreter {
                Some(i) => {
                    assert(base.insert(components(i@)) =~= base.union(set![components(i@)]));
                },
                None => {
                    assert(base =~= base.union(Set::empty()));
                },
            }
        }
        all
    }
}

/// The paths an executable needs, as a set: itself, its libraries, its
/// interpreter.
pub open spec fn needed_path_set(info: ExecutableInfo) -> Set<Seq<Comp>> {
    path_set(strings_view(info.library_paths@)).insert(components(info.executable_path@)).union(
        match info.interpreter {
            Some(i) => set![components(i@)],
            None => Set::empty(),
        },
    )
}

/// `toml::map::Map`, the table type of TOML documents (`toml::Table` is
/// `Map<String, toml::Value>`).
#[verifier::external_type_specification]
#[verifier::external_body]
#[verifier::reject_recursive_types(K)]
#[verifier::reject_recursive_types(V)]
pub struct ExTomlMap<K, V>(toml::map::Map<K, V>);

/// `toml::Value`, a TOML value.
#[verifier::external_type_specification]
#[verifier::external_body]
pub struct ExTomlValue(toml::Value);

/// The entries of a TOML table: each key with its value.
pub uninterp spec fn table_entries(t: toml::Table) -> Map<Seq<char>, toml::Value>;

/// The elements of a TOML value that is an array; `None` for other values.
pub uninterp spec fn value_items(v: toml::Value) -> Option<Seq<toml::Value>>;

/// The table of a TOML value that is a table; `None` for other values.
pub uninterp spec fn value_table(v: toml::Value) -> Option<toml::Table>;

/// The text of a TOML value that is a string; `None` for other values.
pub uninterp spec fn value_text(v: toml::Value) -> Option<Seq<char>>;

/// The table that `toml::from_str` reads from a text; `None` where the text
/// is not a TOML document.
pub uninterp spec fn parsed_table(text: Seq<char>) -> Option<toml::Table>;

/// The text that `toml::to_string_pretty` writes for a table.
pub uninterp spec fn pretty_text(t: toml::Table) -> Seq<char>;

/// Reads a text as a TOML table (`toml::from_str::<toml::Table>`).
#[verifier::external_body]
fn parse_table(text: &str) -> (r: Option<toml::Table>)
    ensures
        r == parsed_table(text@),
{
    toml::from_str::<toml::Table>(text).ok()
}

/// The value of a key of a table (`Map::get`).
#[verifier::external_body]
fn table_get<'a>(t: &'a toml::Table, key: &str) -> (r: Option<&'a toml::Value>)
    ensures
        match r {
            Some(v) => table_entries(*t).contains_key(key@) && *v == table_entries(*t)[key@],
            None => !table_entries(*t).contains_key(key@),
        },
{
    t.get(key)
}

/// Sets a key of a table (`Map::insert`): the key now has the value, the
/// other entries stay, and the previous value comes back where there was one.
/// A key already present keeps its place among the keys.
#[verifier::external_body]
fn table_insert(t: &mut toml::Table, key: String, v: toml::Value) -> (r: Option<toml::Value>)
    ensures
        table_entries(*final(t)) == table_entries(*old(t)).insert(key@, v),
        match r {
            Some(w) => table_entries(*old(t)).contains_key(key@) && w == table_entries(*old(t))[key@],
            None => !table_entries(*old(t)).contains_key(key@),
        },
{
    t.insert(key, v)
}

/// The elements of an array value (`toml::Value::as_array`).
#[verifier::external_body]
fn value_as_array(v: &toml::Value) -> (r: Option<&Vec<toml::Value>>)
    ensures
        match r {
            Some(a) => value_items(*v) == Some(a@),
            None => value_items(*v) is None,
        },
{
    v.as_array()
}

/// The table of a table value (`toml::Value::as_table`).
#[verifier::external_body]
fn value_as_table(v: &toml::Value) -> (r: Option<&toml::Table>)
    ensures
        match r {
            Some(t) => value_table(*v) == Some(*t),
            None => value_table(*v) is None,
        },
{
    v.as_table()
}

/// The elements of an array value, taken out of it (`toml::Value::Array`);
/// any other value comes back unchanged.
#[verifier::external_body]
fn value_into_array(v: toml::Value) -> (r: Result<Vec<toml::Value>, toml::Value>)
    ensures
        match r {
            Ok(a) => value_items(v) == Some(a@),
            Err(w) => w == v && value_items(v) is None,
        },
{
    match v {
        toml::Value::Array(a) => Ok(a),
        other => Err(other),
    }
}

/// The table of a table value, taken out of it (`toml::Value::Table`); any
/// other value comes back unchanged.
#[verifier::external_body]
fn value_into_table(v: toml::Value) -> (r: Result<toml::Table, toml::Value>)
    ensures
        match r {
            Ok(t) => value_table(v) == Some(t),
            Err(w) => w == v && value_table(v) is None,
        },
{
    match v {
        toml::Value::Table(t) => Ok(t),
        other => Err(other),
    }
}

/// A string value (`toml::Value::String`).
#[verifier::external_body]
fn string_value(s: String) -> (r: toml::Value)
    ensures
        value_text(r) == Some(s@),
{
    toml::Value::String(s)
}

/// An array value (`toml::Value::Array`).
#[verifier::external_body]
fn array_value(items: Vec<toml::Value>) -> (r: toml::Value)
    ensures
        value_items(r) == Some(items@),
{
    toml::Value::Array(items)
}

/// A table value (`toml::Value::Table`).
#[verifier::external_body]
fn table_value(t: toml::Table) -> (r: toml::Value)
    ensures
        value_table(r) == Some(t),
{
    toml::Value::Table(t)
}

/// Writes a table as a TOML document (`toml::to_string_pretty`).  The writer
/// does not fail on a table: every TOML value has a form it writes, keys are
/// strings, and the dates a table holds are valid.
#[verifier::external_body]
fn render_table(t: &toml::Table) -> (r: Option<String>)
    ensures
        r is Some,
        r->0@ == pretty_text(*t),
{
    toml::to_string_pretty(t).ok()
}

/// The first table of the `path_beneath` array of a rules document, where
/// the document has one.
pub open spec fn first_rules(doc: toml::Table) -> Option<toml::Table> {
    if table_entries(doc).contains_key("path_beneath"@) {
        match value_items(table_entries(doc)["path_beneath"@]) {
            Some(items) => if items.len() > 0 {
                value_table(items[0])
            } else {
                None
            },
            None => None,
        }
    } else {
        None
    }
}

/// A value that is an array of the strings `paths`, in order.
pub open spec fn is_string_array(v: toml::Value, paths: Seq<Seq<char>>) -> bool {
    value_items(v) matches Some(vs) && vs.len() == paths.len() && forall|i: int|
        0 <= i < vs.len() ==> value_text(#[trigger] vs[i]) == Some(paths[i])
}

/// `new` is the rules document `old` with the `parent` key of its first
/// `path_beneath` table set to the strings `paths`, everything else kept;
/// `new` is `old` itself where `old` has no such table.
pub open spec fn parents_set(old: toml::Table, new: toml::Table, paths: Seq<Seq<char>>) -> bool {
    match first_rules(old) {
        None => new == old,
        Some(rules) => {
            let eo = table_entries(old);
            let en = table_entries(new);
            let items = value_items(eo["path_beneath"@])->0;
            &&& en.dom() == eo.dom()
            &&& forall|k: Seq<char>| #[trigger] eo.contains_key(k) && k != "path_beneath"@ ==> en[k] == eo[k]
            &&& value_items(en["path_beneath"@]) matches Some(items2)
            &&& items2.len() == items.len()
            &&& forall|i: int| 1 <= i < items.len() ==> #[trigger] items2[i] == items[i]
            &&& first_rules(new) matches Some(rules2)
            &&& table_entries(rules2).dom() == table_entries(rules).dom().insert("parent"@)
            &&& forall|k: Seq<char>| #[trigger] table_entries(rules).contains_key(k) && k != "parent"@
                ==> table_entries(rules2)[k] == table_entries(rules)[k]
            &&& is_string_array(table_entries(rules2)["parent"@], paths)
        },
    }
}

/// Sets the `parent` key of the first table of the `path_beneath` array of a
/// rules document to the paths, as an array of strings; the document is left
/// as it is (and `false` comes back) where it has no such table.
fn set_path_beneath_parents(doc: &mut toml::Table, paths: &Vec<String>) -> (r: bool)
    ensures
        r == first_rules(*old(doc)) is Some,
        parents_set(*old(doc), *final(doc), strings_view(paths@)),
{
    let shaped = match table_get(doc, "path_beneath") {
        Some(section) => match value_as_array(section) {
            Some(items) => items.len() > 0 && value_as_table(&items[0]).is_some(),
            None => false,
        },
        None => false,
    };
    if !shaped {
        return false;
    }
    let ghost old_doc = *doc;
    let ghost rules0 = first_rules(old_doc)->0;
    let ghost items0 = value_items(table_entries(old_doc)["path_beneath"@])->0;
    let mut vs: Vec<toml::Value> = Vec::new();
    let mut k: usize = 0;
    while k < paths.len()
        invariant
            k <= paths.len(),
            vs.len() == k,
            forall|j: int| 0 <= j < k ==> value_text(#[trigger] vs@[j]) == Some(paths@[j]@),
        decreases paths.len() - k,
    {
        vs.push(string_value(paths[k].clone()));
        k = k + 1;
    }
    let parents = array_value(vs);
    proof {
        assert(is_string_array(parents, strings_view(paths@)));
    }
    let placeholder = string_value(String::new());
    let section = match table_insert(doc, "path_beneath".to_string(), placeholder) {
        Some(v) => v,
        None => {
            proof {
                assert(false);
            }
            return false;
        },
    };
    let mut items = match value_into_array(section) {
        Ok(a) => a,
        Err(_) => {
            proof {
                assert(false);
            }
            return false;
        },
    };
    let first = items.remove(0);
    let mut rules = match value_into_table(first) {
        Ok(t) => t,
        Err(_) => {
            proof {
                assert(false);
            }
            return false;
        },
    };
    assert(rules == rules0);
    table_insert(&mut rules, "parent".to_string(), parents);
    let ghost rules2 = rules;
    let tv = table_value(rules);
    items.insert(0, tv);
    proof {
        assert(items@ =~= items0.update(0, tv));
    }
    let ghost items2 = items@;
    let av = array_value(items);
    let ghost mid = *doc;
    table_insert(doc, "path_beneath".to_string(), av);
    proof {
        let eo = table_entries(old_doc);
        let en = table_entries(*doc);
        assert(en =~= eo.insert("path_beneath"@, av));
        assert(en.dom() =~= eo.dom());
        assert(en["path_beneath"@] == av);
        assert(items2[0] == tv);
        assert(first_rules(*doc) == Some(rules2));
        assert(table_entries(rules2).dom() =~= table_entries(rules0).dom().insert("parent"@));
    }
    true
}

/// Generates the TOML rules of a single executable from a rules template:
/// the first `[[path_beneath]]` table gets, as its `parent` key, every path
/// the executable needs (`ExecutableInfo::all_paths`: sorted as paths, each
/// once), and the document is written back as TOML.  `None` exactly where
/// the template is not TOML.
pub fn generate_executable_toml(exec_info: &ExecutableInfo, template: &str) -> (r: Option<String>)
    ensures
        r is Some <==> parsed_table(template@) is Some,
        r matches Some(s) ==> exists|doc: toml::Table, p: Seq<Seq<char>>|
            #![trigger pretty_text(doc), path_set(p)]
            paths_sorted(p) && path_set(p) == needed_path_set(*exec_info) && parents_set(
                parsed_table(template@)->0,
                doc,
                p,
            ) && s@ == pretty_text(doc),
{
    let paths = exec_info.all_paths();
    match parse_table(template) {
        Some(doc) => {
            let mut doc = doc;
            let ghost parsed = doc;
            set_path_beneath_parents(&mut doc, &paths);
            let r = render_table(&doc);
            proof {
                let p = strings_view(paths@);
                assert(path_set(p) == needed_path_set(*exec_info));
                assert(pretty_text(doc) == pretty_text(doc));
            }
            r
        },
        None => None,
    }
}

/// Whether a list of names holds a name.
fn names_contain(v: &Vec<String>, s: &str) -> (r: bool)
    ensures
        r == strings_view(v@).contains(s@),
{
    let mut k: usize = 0;
    while k < v.len()
        invariant
            k <= v.len(),
            forall|a: int| 0 <= a < k ==> (#[trigger] v@[a])@ != s@,
        decreases v.len() - k,
    {
        if crate::text::strings_eq(&v[k], s) {
            assert(strings_view(v@)[k as int] == s@);
            return true;
        }
        k = k + 1;
    }
    proof {
        if strings_view(v@).contains(s@) {
            let i = choose|i: int| 0 <= i < v@.len() && strings_view(v@)[i] == s@;
            assert(v@[i]@ == s@);
        }
    }
    false
}

/// One object whose dependencies are being resolved.
struct Frame {
    /// The object's canonical path.
    executable_path: String,
    /// Where its libraries are looked for.
    search_paths: Vec<String>,
    /// Its needed libraries.
    needed: Vec<String>,
    /// The needed library being resolved.
    next: usize,
    /// The libraries resolved so far, as a sorted set.
    library_paths: Vec<String>,
    /// Its interpreter.
    interpreter: Option<String>,
    /// The library found for `needed[next]`, while that library's own
    /// dependencies are resolved.
    found: Option<String>,
}

/// What the resolution waits for.
#[derive(Debug, Clone, Copy, PartialEq, Eq, Structural)]
pub enum Awaiting {
    /// The canonical path and the content of the file asked for by
    /// `ResolveStep::Load` (`loaded`), or the error reading it (`load_failed`).
    Load,
    /// Whether the interpreter asked about exists (`interpreter_checked`).
    Interpreter,
    /// The canonical path of the first candidate that exists, if any
    /// (`library_found`).
    Library,
    /// Nothing: the resolution is over.
    Nothing,
}

/// The state of the resolution between two steps.
enum Pending {
    /// A file is to be loaded; the object will inherit these search paths.
    Load { inherited: Vec<String> },
    /// An object was read; whether its interpreter exists is asked.
    Interpreter { executable_path: String, inherited: Vec<String>, deps: ElfDependencies },
    /// A library of the current object is being looked for.
    Library,
    /// The resolution is over.
    Finished,
}

/// What the program does next for a resolution.
#[derive(Debug)]
pub enum ResolveStep {
    /// Canonicalize this path and read the file.
    Load(String),
    /// Check whether this interpreter path exists.
    CheckInterpreter(String),
    /// Find the first of these paths that exists, and canonicalize it.
    FindLibrary(Vec<String>),
    /// The executable and all its libraries are resolved.
    Done(ExecutableInfo),
    /// The resolution failed.
    Failed(ElfError),
}

/// The resolution of an executable's dependencies.  The program performs
/// the file system work each step asks for and hands the result back; each
/// object's dependencies are resolved depth first, each library with the
/// search paths of the object that needs it.
pub struct Resolution {
    /// File names of the interpreters found so far: a needed library of
    /// that name is the interpreter and is skipped.
    known_interpreters: Vec<String>,
    /// The objects being resolved, the executable first.
    frames: Vec<Frame>,
    pending: Pending,
}

/// A frame's progress and library set are consistent.
spec fn frame_wf(f: Frame) -> bool {
    &&& f.next <= f.needed@.len()
    &&& paths_sorted(strings_view(f.library_paths@))
}

/// A frame waits for the library found for its current needed library.
spec fn frame_waiting(f: Frame) -> bool {
    &&& f.found is Some
    &&& f.next < f.needed@.len()
}

impl Resolution {
    /// Every frame is consistent, and each but the last waits for its
    /// current library.
    spec fn frames_wf(&self) -> bool {
        &&& forall|k: int| 0 <= k < self.frames@.len() ==> frame_wf(#[trigger] self.frames@[k])
        &&& forall|k: int| 0 <= k < self.frames@.len() - 1 ==> frame_waiting(#[trigger] self.frames@[k])
    }

    /// The state is consistent with what the resolution waits for.
    pub closed spec fn wf(&self) -> bool {
        &&& self.frames_wf()
        &&& match self.pending {
            Pending::Load { .. } => self.frames@.len() == 0 || frame_waiting(self.frames@.last()),
            Pending::Interpreter { deps, .. } => deps.interpreter is Some && (self.frames@.len() == 0 || frame_waiting(
                self.frames@.last(),
            )),
            Pending::Library => {
                &&& self.frames@.len() > 0
                &&& self.frames@.last().found is None
                &&& self.frames@.last().next < self.frames@.last().needed@.len()
            },
            Pending::Finished => true,
        }
    }

    /// What the resolution waits for.
    pub closed spec fn awaiting(&self) -> Awaiting {
        match self.pending {
            Pending::Load { .. } => Awaiting::Load,
            Pending::Interpreter { .. } => Awaiting::Interpreter,
            Pending::Library => Awaiting::Library,
            Pending::Finished => Awaiting::Nothing,
        }
    }

    /// The needed library being looked for.
    pub closed spec fn current_name(&self) -> Seq<char> {
        let f = self.frames@.last();
        f.needed@[f.next as int]@
    }

    /// The object that needs it.
    pub closed spec fn current_object(&self) -> Seq<char> {
        self.frames@.last().executable_path@
    }

    /// Where it is looked for.
    pub closed spec fn current_search_paths(&self) -> Seq<Seq<char>> {
        strings_view(self.frames@.last().search_paths@)
    }

    /// The objects being resolved, the executable first.
    pub closed spec fn frames(&self) -> Seq<FrameView> {
        frames_view(self.frames@)
    }

    /// The file names of the interpreters found so far.
    pub closed spec fn known(&self) -> Seq<Seq<char>> {
        strings_view(self.known_interpreters@)
    }

    /// The search paths that the object being loaded, or whose interpreter
    /// is asked about, inherits.
    pub closed spec fn inherited(&self) -> Seq<Seq<char>> {
        match self.pending {
            Pending::Load { inherited } => strings_view(inherited@),
            Pending::Interpreter { inherited, .. } => strings_view(inherited@),
            _ => Seq::empty(),
        }
    }

    /// The object whose interpreter is asked about.
    pub closed spec fn pending_object(&self) -> Seq<char> {
        match self.pending {
            Pending::Interpreter { executable_path, .. } => executable_path@,
            _ => Seq::empty(),
        }
    }

    /// The interpreter asked about.
    pub closed spec fn pending_interpreter(&self) -> Seq<char> {
        match self.pending {
            Pending::Interpreter { deps, .. } => match deps.interpreter {
                Some(i) => i@,
                None => Seq::empty(),
            },
            _ => Seq::empty(),
        }
    }

    /// `RPATH` and `RUNPATH` of the object whose interpreter is asked about.
    pub closed spec fn pending_search(&self) -> Option<(Option<Seq<char>>, Option<Seq<char>>)> {
        match self.pending {
            Pending::Interpreter { deps, .. } => rpath_runpath_view(deps.rpath_runpath),
            _ => None,
        }
    }

    /// The needed libraries of the object whose interpreter is asked about.
    pub closed spec fn pending_needed(&self) -> Seq<Seq<char>> {
        match self.pending {
            Pending::Interpreter { deps, .. } => strings_view(deps.needed@),
            _ => Seq::empty(),
        }
    }

    /// What the resolution waits for.
    pub fn awaits(&self) -> (r: Awaiting)
        ensures
            r == self.awaiting(),
    {
        match self.pending {
            Pending::Load { .. } => Awaiting::Load,
            Pending::Interpreter { .. } => Awaiting::Interpreter,
            Pending::Library => Awaiting::Library,
            Pending::Finished => Awaiting::Nothing,
        }
    }
}

/// A step agrees with what the resolution then waits for: a library search
/// asks for the candidates of the current library, which is no known
/// interpreter; a finished resolution gives a sorted set of libraries.
pub open spec fn step_consistent(res: Resolution, r: ResolveStep) -> bool {
    &&& res.wf()
    &&& match r {
        ResolveStep::Load(_) => res.awaiting() == Awaiting::Load,
        ResolveStep::CheckInterpreter(_) => res.awaiting() == Awaiting::Interpreter,
        ResolveStep::FindLibrary(c) => {
            &&& res.awaiting() == Awaiting::Library
            &&& strings_view(c@) == library_candidates_spec(res.current_name(), res.current_search_paths())
            &&& !res.known().contains(res.current_name())
        },
        ResolveStep::Done(info) => res.awaiting() == Awaiting::Nothing && info.wf(),
        ResolveStep::Failed(_) => res.awaiting() == Awaiting::Nothing,
    }
}

/// Starts resolving an executable and all its dynamic library dependencies:
/// the first step loads the executable.
pub fn resolve_executable(path: &str) -> (r: (Resolution, ResolveStep))
    ensures
        r.0.wf(),
        r.0.awaiting() == Awaiting::Load,
        r.0.known() == Seq::<Seq<char>>::empty(),
        r.0.frames() == Seq::<FrameView>::empty(),
        r.0.inherited() == Seq::<Seq<char>>::empty(),
        r.1 matches ResolveStep::Load(p) && p@ == path@,
{
    let res = Resolution { known_interpreters: Vec::new(), frames: Vec::new(), pending: Pending::Load { inherited: Vec::new() } };
    assert(res.known() =~= Seq::<Seq<char>>::empty());
    assert(res.frames() =~= Seq::<FrameView>::empty());
    assert(res.inherited() =~= Seq::<Seq<char>>::empty());
    (res, ResolveStep::Load(path.to_string()))
}

/// The first of the needed libraries, from position `from` on, that is not a
/// known interpreter.
pub open spec fn first_unknown(needed: Seq<Seq<char>>, known: Seq<Seq<char>>, from: int) -> Option<int>
    decreases needed.len() - from,
{
    if from < 0 || from >= needed.len() {
        None
    } else if !known.contains(needed[from]) {
        Some(from)
    } else {
        first_unknown(needed, known, from + 1)
    }
}

/// What the resolution knows of one object being resolved.
pub struct FrameView {
    /// The object's canonical path.
    pub object: Seq<char>,
    /// Where its libraries are looked for.
    pub search_paths: Seq<Seq<char>>,
    /// Its needed libraries, in order.
    pub needed: Seq<Seq<char>>,
    /// The position of the needed library being resolved.
    pub next: int,
    /// The libraries resolved so far, as a set of paths.
    pub libraries: Set<Seq<Comp>>,
    /// Its interpreter.
    pub interpreter: Option<Seq<char>>,
    /// The library found for the needed library being resolved, while that
    /// library's own dependencies are resolved.
    pub found: Option<Seq<char>>,
}

/// The view of a frame.
spec fn frame_view(f: Frame) -> FrameView {
    FrameView {
        object: f.executable_path@,
        search_paths: strings_view(f.search_paths@),
        needed: strings_view(f.needed@),
        next: f.next as int,
        libraries: path_set(strings_view(f.library_paths@)),
        interpreter: opt_string(f.interpreter),
        found: opt_string(f.found),
    }
}

/// The views of frames.
spec fn frames_view(v: Seq<Frame>) -> Seq<FrameView> {
    v.map_values(|f: Frame| frame_view(f))
}

/// An object moved on to its needed library at position `k`.
pub open spec fn with_next(f: FrameView, k: int) -> FrameView {
    FrameView {
        object: f.object,
        search_paths: f.search_paths,
        needed: f.needed,
        next: k,
        libraries: f.libraries,
        interpreter: f.interpreter,
        found: f.found,
    }
}

/// An object once the library found for its current needed library is
/// resolved: it holds that library and all the library's own libraries, and
/// moves on to its next needed library.  Its search paths stay as they were.
pub open spec fn merged(parent: FrameView, child: FrameView) -> FrameView {
    FrameView {
        object: parent.object,
        search_paths: parent.search_paths,
        needed: parent.needed,
        next: parent.next + 1,
        libraries: parent.libraries.union(
            match parent.found {
                Some(p) => set![components(p)],
                None => Set::empty(),
            },
        ).union(child.libraries),
        interpreter: parent.interpreter,
        found: None,
    }
}

/// An object just read: its search paths are those it inherits and those
/// it adds; its interpreter, where it exists, is its first library.
pub open spec fn fresh_frame(
    object: Seq<char>,
    inherited: Seq<Seq<char>>,
    interpreter: Option<Seq<char>>,
    interpreter_exists: bool,
    rpath_runpath: Option<(Option<Seq<char>>, Option<Seq<char>>)>,
    needed: Seq<Seq<char>>,
) -> FrameView {
    let existing = if interpreter_exists {
        interpreter
    } else {
        None
    };
    FrameView {
        object,
        search_paths: append_unique(inherited, search_additions(object, existing, rpath_runpath)),
        needed,
        next: 0,
        libraries: match existing {
            Some(i) => set![components(i)],
            None => Set::empty(),
        },
        interpreter,
        found: None,
    }
}

/// An object waiting for the dependencies of the library found at `p`.
pub open spec fn with_found(f: FrameView, p: Seq<char>) -> FrameView {
    FrameView {
        object: f.object,
        search_paths: f.search_paths,
        needed: f.needed,
        next: f.next,
        libraries: f.libraries,
        interpreter: f.interpreter,
        found: Some(p),
    }
}

/// Where the resolution stands once nothing more can be decided without
/// the file system.
pub enum Settled {
    /// The library `name` is looked for in `search_paths`.
    Find { name: Seq<char>, search_paths: Seq<Seq<char>> },
    /// The executable is resolved.
    Done { object: Seq<char>, libraries: Set<Seq<Comp>>, interpreter: Option<Seq<char>> },
}

/// Goes on depth first from the last object: its next needed library that
/// is not a known interpreter is looked for; an object with none left is
/// done and merged into the object that needed it, which then goes on; the
/// executable done ends the resolution.
pub open spec fn settle(fs: Seq<FrameView>, known: Seq<Seq<char>>) -> (Seq<FrameView>, Settled)
    decreases fs.len(),
{
    if fs.len() == 0 {
        (fs, Settled::Done { object: Seq::empty(), libraries: Set::empty(), interpreter: None })
    } else {
        let top = fs.last();
        match first_unknown(top.needed, known, top.next) {
            Some(k) => (
                fs.update(fs.len() - 1, with_next(top, k)),
                Settled::Find { name: top.needed[k], search_paths: top.search_paths },
            ),
            None => if fs.len() == 1 {
                (
                    Seq::empty(),
                    Settled::Done { object: top.object, libraries: top.libraries, interpreter: top.interpreter },
                )
            } else {
                settle(fs.drop_last().update(fs.len() - 2, merged(fs[fs.len() - 2], top)), known)
            },
        }
    }
}

/// A step does what the settled resolution calls for: look for the library
/// in its candidates, or give the executable with all its libraries.
pub open spec fn step_matches(r: ResolveStep, s: Settled) -> bool {
    match s {
        Settled::Find { name, search_paths } => (r matches ResolveStep::FindLibrary(c) && strings_view(c@)
            == library_candidates_spec(name, search_paths)),
        Settled::Done { object, libraries, interpreter } => (r matches ResolveStep::Done(info)
            && info.executable_path@ == object && path_set(strings_view(info.library_paths@)) == libraries
            && opt_string(info.interpreter) == interpreter),
    }
}

/// Skipping a known interpreter does not change how the resolution settles.
proof fn lemma_settle_skip(fs: Seq<FrameView>, known: Seq<Seq<char>>)
    requires
        fs.len() > 0,
        0 <= fs.last().next < fs.last().needed.len(),
        known.contains(fs.last().needed[fs.last().next]),
    ensures
        settle(fs.update(fs.len() - 1, with_next(fs.last(), fs.last().next + 1)), known) == settle(fs, known),
{
    let top = fs.last();
    let top2 = with_next(top, top.next + 1);
    let fs2 = fs.update(fs.len() - 1, top2);
    assert(fs2.last() == top2);
    assert(first_unknown(top.needed, known, top.next) == first_unknown(top.needed, known, top.next + 1));
    match first_unknown(top.needed, known, top.next) {
        Some(k) => {
            assert(fs2.update(fs2.len() - 1, with_next(top2, k)) =~= fs.update(fs.len() - 1, with_next(top, k)));
        },
        None => {
            if fs.len() > 1 {
                assert(fs2[fs.len() - 2] == fs[fs.len() - 2]);
                assert(fs2.drop_last() =~= fs.drop_last());
                assert(merged(fs[fs.len() - 2], top2) == merged(fs[fs.len() - 2], top));
            }
        },
    }
}

/// The known interpreter names once an existing interpreter is found: its
/// file name is added.
pub open spec fn known_after(known: Seq<Seq<char>>, interpreter: Option<Seq<char>>) -> Seq<Seq<char>> {
    match interpreter {
        Some(i) => match file_name_spec(i) {
            Some(f) => if known.contains(f) {
                known
            } else {
                known.push(f)
            },
            None => known,
        },
        None => known,
    }
}

/// Law: an existing interpreter's file name becomes known, so that a needed
/// library of that name is skipped from then on; the names known before stay
/// known, and a missing interpreter adds nothing.
pub proof fn lemma_interpreter_becomes_known(known: Seq<Seq<char>>, interpreter: Option<Seq<char>>, n: Seq<char>)
    ensures
        (interpreter matches Some(i) && file_name_spec(i) == Some(n)) ==> known_after(known, interpreter).contains(n),
        known.contains(n) ==> known_after(known, interpreter).contains(n),
        interpreter is None ==> known_after(known, interpreter) == known,
{
    match interpreter {
        Some(i) => match file_name_spec(i) {
            Some(f) => {
                if !known.contains(f) {
                    assert(known.push(f)[known.len() as int] == f);
                    if known.contains(n) {
                        let k = choose|k: int| 0 <= k < known.len() && known[k] == n;
                        assert(known.push(f)[k] == n);
                    }
                }
            },
            None => {},
        },
        None => {},
    }
}

/// The needed libraries of an object's dynamic entries.
pub open spec fn needed_list(dynamic: Option<Seq<(i64, Option<Seq<char>>)>>) -> Seq<Seq<char>> {
    match dynamic {
        Some(e) => needed_of(e),
        None => Seq::empty(),
    }
}

impl Resolution {
    /// Opens the frame of an object that was read: an existing interpreter
    /// is its first library and a known interpreter; its search paths are
    /// those inherited and those it adds.
    fn open_frame(&mut self, executable_path: String, inherited: Vec<String>, deps: ElfDependencies, interpreter_exists: bool)
        requires
            old(self).frames_wf(),
            old(self).frames@.len() == 0 || frame_waiting(old(self).frames@.last()),
        ensures
            final(self).frames_wf(),
            final(self).frames@.len() == old(self).frames@.len() + 1,
            final(self).frames@.last().found is None,
            final(self).frames@.last().next == 0,
            final(self).frames@.last().needed@ == deps.needed@,
            strings_view(final(self).frames@.last().search_paths@) == append_unique(
                strings_view(inherited@),
                search_additions(
                    executable_path@,
                    if interpreter_exists {
                        opt_string(deps.interpreter)
                    } else {
                        None
                    },
                    rpath_runpath_view(deps.rpath_runpath),
                ),
            ),
            final(self).known() == known_after(old(self).known(), if interpreter_exists {
                opt_string(deps.interpreter)
            } else {
                None
            }),
            final(self).frames() == old(self).frames().push(
                fresh_frame(
                    executable_path@,
                    strings_view(inherited@),
                    opt_string(deps.interpreter),
                    interpreter_exists,
                    rpath_runpath_view(deps.rpath_runpath),
                    strings_view(deps.needed@),
                ),
            ),
            final(self).pending == old(self).pending,
    {
        let mut library_paths: Vec<String> = Vec::new();
        assert(path_set(strings_view(library_paths@)) =~= Set::<Seq<Comp>>::empty());
        let mut interp_dir: Option<&str> = None;
        if interpreter_exists {
            match &deps.interpreter {
                Some(i) => {
                    path_set_insert(&mut library_paths, i.clone());
                    interp_dir = Some(i.as_str());
                    match file_name(i) {
                        Some(f) => {
                            if !names_contain(&self.known_interpreters, &f) {
                                let ghost k0 = self.known();
                                let ghost fv = f@;
                                self.known_interpreters.push(f);
                                assert(self.known() =~= k0.push(fv));
                            }
                        },
                        None => {},
                    }
                },
                None => {},
            }
        }
        let search_paths = object_search_paths(&inherited, &executable_path, interp_dir, &deps.rpath_runpath);
        let ghost fresh = fresh_frame(
            executable_path@,
            strings_view(inherited@),
            opt_string(deps.interpreter),
            interpreter_exists,
            rpath_runpath_view(deps.rpath_runpath),
            strings_view(deps.needed@),
        );
        let frame = Frame {
            executable_path,
            search_paths,
            needed: deps.needed,
            next: 0,
            library_paths,
            interpreter: deps.interpreter,
            found: None,
        };
        let ghost before = self.frames@;
        let ghost fview = frame_view(frame);
        self.frames.push(frame);
        proof {
            assert(fview.libraries =~= fresh.libraries);
            assert(fview == fresh);
            assert(self.frames() =~= frames_view(before).push(fview));
            assert forall|k: int| 0 <= k < self.frames@.len() implies frame_wf(#[trigger] self.frames@[k]) by {
                if k < before.len() {
                    assert(self.frames@[k] == before[k]);
                }
            }
            assert forall|k: int| 0 <= k < self.frames@.len() - 1 implies frame_waiting(#[trigger] self.frames@[k]) by {
                assert(self.frames@[k] == before[k]);
                if k < before.len() - 1 {
                } else {
                    assert(before.last() == before[k]);
                }
            }
        }
    }

    /// Goes on with the current object: skips needed libraries that are
    /// known interpreters, asks for the next library, or, when the object is
    /// done, hands its libraries to the object that needs it, which goes on
    /// in turn; the executable done ends the resolution.
    fn advance(&mut self) -> (r: ResolveStep)
        requires
            old(self).frames_wf(),
            old(self).frames@.len() > 0,
            old(self).frames@.last().found is None,
        ensures
            step_consistent(*final(self), r),
            r is FindLibrary || r is Done,
            final(self).known() == old(self).known(),
            final(self).frames() == settle(old(self).frames(), old(self).known()).0,
            step_matches(r, settle(old(self).frames(), old(self).known()).1),
            first_unknown(strings_view(old(self).frames@.last().needed@), old(self).known(), old(self).frames@.last().next as int)
                matches Some(k) ==> (r is FindLibrary && final(self).frames@.len() == old(self).frames@.len()
                && final(self).current_name() == strings_view(old(self).frames@.last().needed@)[k]
                && final(self).current_search_paths() == strings_view(old(self).frames@.last().search_paths@)),
    {
        let ghost f = self.frames@.last();
        let ghost known0 = self.known();
        let ghost nv = strings_view(f.needed@);
        let ghost fk = first_unknown(nv, known0, f.next as int);
        let ghost n0 = self.frames@.len();
        let ghost goal = settle(self.frames(), known0);
        assert(known0 == old(self).known());
        assert(f == old(self).frames@.last());
        loop
            invariant
                known0 == old(self).known(),
                f == old(self).frames@.last(),
                n0 == old(self).frames@.len(),
                goal == settle(old(self).frames(), known0),
                settle(self.frames(), known0) == goal,
                self.frames_wf(),
                self.frames@.len() > 0,
                self.frames@.last().found is None,
                self.known() == known0,
                nv == strings_view(f.needed@),
                fk == first_unknown(nv, known0, f.next as int),
                fk is Some ==> {
                    &&& self.frames@.len() == n0
                    &&& self.frames@.last().needed@ == f.needed@
                    &&& self.frames@.last().search_paths@ == f.search_paths@
                    &&& first_unknown(nv, known0, self.frames@.last().next as int) == fk
                },
            decreases self.frames@.len(), self.frames@.last().needed@.len() - self.frames@.last().next,
        {
            let ghost before = self.frames@;
            let ghost fv = frames_view(before);
            let mut top = self.frames.pop().unwrap();
            assert(top == before.last());
            assert(frame_wf(before[before.len() - 1]));
            assert(self.frames@ =~= before.drop_last());
            assert(fv.last() == frame_view(top));
            proof {
                assert forall|k: int| 0 <= k < self.frames@.len() implies frame_wf(#[trigger] self.frames@[k]) by {
                    assert(self.frames@[k] == before[k]);
                }
                assert forall|k: int| 0 <= k < self.frames@.len() - 1 implies frame_waiting(#[trigger] self.frames@[k]) by {
                    assert(self.frames@[k] == before[k]);
                }
            }
            if top.next < top.needed.len() {
                let known = names_contain(&self.known_interpreters, &top.needed[top.next]);
                proof {
                    assert(strings_view(top.needed@)[top.next as int] == top.needed@[top.next as int]@);
                }
                if known {
                    proof {
                        if fk is Some {
                            assert(nv[top.next as int] == top.needed@[top.next as int]@);
                            assert(first_unknown(nv, known0, top.next as int) == first_unknown(nv, known0, top.next + 1));
                        }
                        lemma_settle_skip(fv, known0);
                    }
                    let ghost old_top = top;
                    top.next = top.next + 1;
                    self.frames.push(top);
                    proof {
                        assert(frame_view(top) == with_next(frame_view(old_top), old_top.next + 1));
                        assert(self.frames() =~= fv.update(fv.len() - 1, with_next(fv.last(), fv.last().next + 1)));
                        assert forall|k: int| 0 <= k < self.frames@.len() implies frame_wf(#[trigger] self.frames@[k]) by {
                            if k < before.len() - 1 {
                                assert(self.frames@[k] == before[k]);
                            }
                        }
                        assert forall|k: int| 0 <= k < self.frames@.len() - 1 implies frame_waiting(#[trigger] self.frames@[k]) by {
                            assert(self.frames@[k] == before[k]);
                        }
                    }
                    continue;
                }
                let c = library_candidates(&top.needed[top.next], &top.search_paths);
                self.frames.push(top);
                self.pending = Pending::Library;
                proof {
                    assert(self.frames@ =~= before);
                    let tv = fv.last();
                    assert(first_unknown(tv.needed, known0, tv.next) == Some(tv.next));
                    assert(with_next(tv, tv.next) == tv);
                    assert(fv.update(fv.len() - 1, with_next(tv, tv.next)) =~= fv);
                    if fk is Some {
                        assert(before.last().needed@ == f.needed@);
                        assert(top.needed@ == f.needed@);
                        assert(top.search_paths@ == f.search_paths@);
                        assert(nv[top.next as int] == top.needed@[top.next as int]@);
                        assert(fk == Some(top.next as int));
                        assert(self.frames@.last() == top);
                        assert(self.current_name() == nv[top.next as int]);
                        assert(self.current_search_paths() == strings_view(f.search_paths@));
                        assert(self.frames@.len() == n0);
                    }
                    assert forall|k: int| 0 <= k < self.frames@.len() implies frame_wf(#[trigger] self.frames@[k]) by {
                        if k < before.len() - 1 {
                            assert(self.frames@[k] == before[k]);
                        }
                    }
                    assert forall|k: int| 0 <= k < self.frames@.len() - 1 implies frame_waiting(#[trigger] self.frames@[k]) by {
                        assert(self.frames@[k] == before[k]);
                    }
                }
                return ResolveStep::FindLibrary(c);
            }
            proof {
                assert(first_unknown(fv.last().needed, known0, fv.last().next) is None);
            }
            if self.frames.len() == 0 {
                self.pending = Pending::Finished;
                proof {
                    assert(fv.len() == 1);
                    assert(self.frames() =~= Seq::<FrameView>::empty());
                }
                return ResolveStep::Done(
                    ExecutableInfo { executable_path: top.executable_path, library_paths: top.library_paths, interpreter: top.interpreter },
                );
            }
            let ghost rest = self.frames@;
            let mut up = self.frames.pop().unwrap();
            assert(up == rest.last());
            assert(frame_wf(rest[rest.len() - 1]));
            assert(frame_waiting(before[rest.len() - 1]));
            assert(rest[rest.len() - 1] == before[rest.len() - 1]);
            assert(up.next < up.needed@.len());
            assert(paths_sorted(strings_view(up.library_paths@)));
            let ghost up_view = frame_view(up);
            assert(fv[fv.len() - 2] == up_view);
            let found = match &up.found {
                Some(p) => p.clone(),
                None => String::new(),
            };
            assert(up_view.found == Some(found@));
            let mut libs: Vec<String> = Vec::new();
            std::mem::swap(&mut libs, &mut up.library_paths);
            let ghost base = path_set(strings_view(libs@)).insert(components(found@));
            path_set_insert(&mut libs, found);
            let ghost child = strings_view(top.library_paths@);
            let mut j: usize = 0;
            assert(base.union(path_set(child.take(0))) =~= base);
            while j < top.library_paths.len()
                invariant
                    j <= top.library_paths.len(),
                    child == strings_view(top.library_paths@),
                    paths_sorted(strings_view(libs@)),
                    path_set(strings_view(libs@)) == base.union(path_set(child.take(j as int))),
                decreases top.library_paths.len() - j,
            {
                path_set_insert(&mut libs, top.library_paths[j].clone());
                proof {
                    assert(child.take(j + 1) =~= child.take(j as int).push(child[j as int]));
                    lemma_path_set_push(child.take(j as int), child[j as int]);
                    assert(path_set(strings_view(libs@)) =~= base.union(path_set(child.take(j + 1))));
                }
                j = j + 1;
            }
            assert(child.take(top.library_paths.len() as int) =~= child);
            up.library_paths = libs;
            up.found = None;
            if up.next < up.needed.len() {
                up.next = up.next + 1;
            }
            self.frames.push(up);
            proof {
                let m = merged(up_view, fv.last());
                assert(frame_view(up).libraries =~= m.libraries);
                assert(frame_view(up) == m);
                assert(self.frames() =~= fv.drop_last().update(fv.len() - 2, merged(fv[fv.len() - 2], fv.last())));
                assert forall|k: int| 0 <= k < self.frames@.len() implies frame_wf(#[trigger] self.frames@[k]) by {
                    if k < rest.len() - 1 {
                        assert(self.frames@[k] == rest[k]);
                        assert(rest[k] == before[k]);
                    }
                }
                assert forall|k: int| 0 <= k < self.frames@.len() - 1 implies frame_waiting(#[trigger] self.frames@[k]) by {
                    assert(self.frames@[k] == rest[k]);
                    assert(rest[k] == before[k]);
                }
            }
        }
    }

    /// The file asked for could not be canonicalized or read: the
    /// resolution fails with that error.
    pub fn load_failed(&mut self, e: std::io::Error) -> (r: ResolveStep)
        requires
            old(self).wf(),
            old(self).awaiting() == Awaiting::Load,
        ensures
            step_consistent(*final(self), r),
            r matches ResolveStep::Failed(ElfError::Io(_)),
            final(self).frames() == old(self).frames(),
    {
        self.pending = Pending::Finished;
        ResolveStep::Failed(ElfError::Io(e))
    }

    /// The file asked for was loaded: its canonical path and its content.
    /// Content that is not an ELF object fails the resolution with `NotElf`,
    /// tables that cannot be parsed with `Parse`; an interpreter is checked
    /// first; otherwise the object's libraries are looked for.
    pub fn loaded(&mut self, canonical: String, data: &[u8]) -> (r: ResolveStep)
        requires
            old(self).wf(),
            old(self).awaiting() == Awaiting::Load,
        ensures
            step_consistent(*final(self), r),
            !elf_parses(data@) ==> (r matches ResolveStep::Failed(ElfError::NotElf(p)) && p@ == canonical@),
            elf_parses(data@) ==> match elf_program_headers(data@) {
                None => r matches ResolveStep::Failed(ElfError::Parse(_)),
                Some(segs) => match dynamic_entries_of(data@) {
                    None => r matches ResolveStep::Failed(ElfError::Parse(_)),
                    Some(dynamic) => match interpreter_of(segs, data@) {
                        Some(i) => {
                            &&& r matches ResolveStep::CheckInterpreter(q) && q@ == i
                            &&& final(self).frames() == old(self).frames()
                            &&& final(self).pending_object() == canonical@
                            &&& final(self).pending_interpreter() == i
                            &&& final(self).pending_search() == rpath_runpath_of(dynamic)
                            &&& final(self).pending_needed() == needed_list(dynamic)
                            &&& final(self).inherited() == old(self).inherited()
                            &&& final(self).known() == old(self).known()
                        },
                        None => {
                            &&& r is FindLibrary || r is Done
                            &&& final(self).known() == old(self).known()
                            &&& ({
                                let s = settle(
                                    old(self).frames().push(
                                        fresh_frame(
                                            canonical@,
                                            old(self).inherited(),
                                            None,
                                            false,
                                            rpath_runpath_of(dynamic),
                                            needed_list(dynamic),
                                        ),
                                    ),
                                    old(self).known(),
                                );
                                final(self).frames() == s.0 && step_matches(r, s.1)
                            })
                            &&& first_unknown(needed_list(dynamic), old(self).known(), 0) matches Some(k) ==> {
                                &&& r is FindLibrary
                                &&& final(self).current_name() == needed_list(dynamic)[k]
                                &&& final(self).current_search_paths() == append_unique(
                                    old(self).inherited(),
                                    search_additions(canonical@, None, rpath_runpath_of(dynamic)),
                                )
                            }
                        },
                    },
                },
            },
    {
        let deps = match read_dependencies(data, &canonical) {
            Ok(d) => d,
            Err(e) => {
                self.pending = Pending::Finished;
                return ResolveStep::Failed(e);
            },
        };
        let inherited = match &self.pending {
            Pending::Load { inherited } => clone_strings(inherited),
            _ => Vec::new(),
        };
        match &deps.interpreter {
            Some(i) => {
                let q = i.clone();
                self.pending = Pending::Interpreter { executable_path: canonical, inherited, deps };
                ResolveStep::CheckInterpreter(q)
            },
            None => {
                self.pending = Pending::Library;
                self.open_frame(canonical, inherited, deps, false);
                self.advance()
            },
        }
    }

    /// Whether the interpreter asked about exists.  An existing interpreter
    /// is one of the libraries, its directory a search path, and a needed
    /// library of its file name is skipped.
    pub fn interpreter_checked(&mut self, exists: bool) -> (r: ResolveStep)
        requires
            old(self).wf(),
            old(self).awaiting() == Awaiting::Interpreter,
        ensures
            step_consistent(*final(self), r),
            r is FindLibrary || r is Done,
            exists ==> (file_name_spec(old(self).pending_interpreter()) matches Some(f) ==> final(self).known().contains(f)),
            forall|n: Seq<char>| old(self).known().contains(n) ==> #[trigger] final(self).known().contains(n),
            ({
                let interpreter = if exists {
                    Some(old(self).pending_interpreter())
                } else {
                    None
                };
                &&& final(self).known() == known_after(old(self).known(), interpreter)
                &&& ({
                    let s = settle(
                        old(self).frames().push(
                            fresh_frame(
                                old(self).pending_object(),
                                old(self).inherited(),
                                Some(old(self).pending_interpreter()),
                                exists,
                                old(self).pending_search(),
                                old(self).pending_needed(),
                            ),
                        ),
                        known_after(old(self).known(), interpreter),
                    );
                    final(self).frames() == s.0 && step_matches(r, s.1)
                })
                &&& first_unknown(old(self).pending_needed(), known_after(old(self).known(), interpreter), 0) matches Some(k)
                    ==> {
                    &&& r is FindLibrary
                    &&& final(self).current_name() == old(self).pending_needed()[k]
                    &&& final(self).current_search_paths() == append_unique(
                        old(self).inherited(),
                        search_additions(old(self).pending_object(), interpreter, old(self).pending_search()),
                    )
                }
            }),
    {
        let mut p = Pending::Library;
        std::mem::swap(&mut p, &mut self.pending);
        match p {
            Pending::Interpreter { executable_path, inherited, deps } => {
                self.open_frame(executable_path, inherited, deps, exists);
                let r = self.advance();
                proof {
                    let interpreter = if exists {
                        Some(old(self).pending_interpreter())
                    } else {
                        None
                    };
                    assert forall|n: Seq<char>| old(self).known().contains(n) implies #[trigger] self.known().contains(n) by {
                        lemma_interpreter_becomes_known(old(self).known(), interpreter, n);
                    }
                    if exists {
                        if let Some(f) = file_name_spec(old(self).pending_interpreter()) {
                            lemma_interpreter_becomes_known(old(self).known(), interpreter, f);
                        }
                    }
                }
                r
            },
            _ => {
                // Awaiting the interpreter means an interpreter is pending.
                proof {
                    assert(false);
                }
                self.pending = Pending::Finished;
                ResolveStep::Failed(ElfError::NotElf(String::new()))
            },
        }
    }

    /// The library looked for: the canonical path of the first candidate
    /// that exists, if any.  A library not found fails the resolution;
    /// a found one is loaded and resolved in turn.
    pub fn library_found(&mut self, found: Option<String>) -> (r: ResolveStep)
        requires
            old(self).wf(),
            old(self).awaiting() == Awaiting::Library,
        ensures
            step_consistent(*final(self), r),
            match found {
                None => (r matches ResolveStep::Failed(ElfError::LibraryNotFound(n, o)) && n@ == old(self).current_name()
                    && o@ == old(self).current_object() && n@ == old(self).frames().last().needed[old(
                    self,
                ).frames().last().next] && o@ == old(self).frames().last().object),
                Some(p) => (r matches ResolveStep::Load(q) && q@ == p@) && final(self).inherited()
                    == old(self).current_search_paths() && final(self).known() == old(self).known()
                    && final(self).frames() == old(self).frames().update(
                    old(self).frames().len() - 1,
                    with_found(old(self).frames().last(), p@),
                ),
            },
            found is None ==> final(self).frames() == old(self).frames(),
    {
        let ghost before = self.frames@;
        let mut top = self.frames.pop().unwrap();
        assert(top == before.last());
        match found {
            None => {
                let name = top.needed[top.next].clone();
                let object = top.executable_path.clone();
                self.frames.push(top);
                assert(self.frames@ =~= before);
                self.pending = Pending::Finished;
                ResolveStep::Failed(ElfError::LibraryNotFound(name, object))
            },
            Some(p) => {
                let inherited = clone_strings(&top.search_paths);
                top.found = Some(p.clone());
                self.frames.push(top);
                self.pending = Pending::Load { inherited };
                proof {
                    assert forall|k: int| 0 <= k < self.frames@.len() implies frame_wf(#[trigger] self.frames@[k]) by {
                        if k < before.len() - 1 {
                            assert(self.frames@[k] == before[k]);
                        }
                    }
                    assert forall|k: int| 0 <= k < self.frames@.len() - 1 implies frame_waiting(#[trigger] self.frames@[k]) by {
                        assert(self.frames@[k] == before[k]);
                    }
                }
                ResolveStep::Load(p)
            },
        }
    }
}

} // verus!
