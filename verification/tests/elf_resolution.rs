use island::elf_utils::{
    generate_executable_toml, ExecutableInfo, expand_origin, get_interpreter, get_needed_libraries, get_rpath_runpath, library_candidates, object_search_paths,
    read_dependencies, resolve_executable, Awaiting, ElfError, ResolveStep, DT_NEEDED, DT_RPATH, DT_RUNPATH, PT_INTERP,
};

#[test]
fn test_expand_origin() {
    let executable = "/usr/bin/myapp";
    assert_eq!(expand_origin("$ORIGIN/../lib", executable), "/usr/bin/../lib");
    assert_eq!(expand_origin("${ORIGIN}/plugins", executable), "/usr/bin/plugins");
    assert_eq!(expand_origin("/absolute/path", executable), "/absolute/path");
}

#[test]
fn expand_origin_without_parent_keeps_the_path() {
    assert_eq!(expand_origin("$ORIGIN/lib", "/"), "$ORIGIN/lib");
    assert_eq!(expand_origin("$ORIGIN:$ORIGIN", "/a/b"), "/a:/a");
}

/// A 64-bit little-endian ELF header followed by `phnum` program headers of
/// type PT_INTERP pointing at `interp` (NUL-terminated) after them.
fn tiny_elf(with_segments: bool, interp: &str) -> Vec<u8> {
    let mut d: Vec<u8> = Vec::new();
    d.extend_from_slice(&[0x7f, b'E', b'L', b'F', 2, 1, 1, 0, 0, 0, 0, 0, 0, 0, 0, 0]);
    d.extend_from_slice(&2u16.to_le_bytes()); // e_type
    d.extend_from_slice(&0x3eu16.to_le_bytes()); // e_machine
    d.extend_from_slice(&1u32.to_le_bytes()); // e_version
    d.extend_from_slice(&0u64.to_le_bytes()); // e_entry
    d.extend_from_slice(&(if with_segments { 64u64 } else { 0u64 }).to_le_bytes()); // e_phoff
    d.extend_from_slice(&0u64.to_le_bytes()); // e_shoff
    d.extend_from_slice(&0u32.to_le_bytes()); // e_flags
    d.extend_from_slice(&64u16.to_le_bytes()); // e_ehsize
    d.extend_from_slice(&56u16.to_le_bytes()); // e_phentsize
    d.extend_from_slice(&(if with_segments { 1u16 } else { 0u16 }).to_le_bytes()); // e_phnum
    d.extend_from_slice(&64u16.to_le_bytes()); // e_shentsize
    d.extend_from_slice(&0u16.to_le_bytes()); // e_shnum
    d.extend_from_slice(&0u16.to_le_bytes()); // e_shstrndx
    assert_eq!(d.len(), 64);
    if with_segments {
        let size = interp.len() as u64 + 1;
        d.extend_from_slice(&PT_INTERP.to_le_bytes());
        d.extend_from_slice(&4u32.to_le_bytes()); // p_flags
        d.extend_from_slice(&120u64.to_le_bytes()); // p_offset
        d.extend_from_slice(&0u64.to_le_bytes()); // p_vaddr
        d.extend_from_slice(&0u64.to_le_bytes()); // p_paddr
        d.extend_from_slice(&size.to_le_bytes()); // p_filesz
        d.extend_from_slice(&size.to_le_bytes()); // p_memsz
        d.extend_from_slice(&1u64.to_le_bytes()); // p_align
        assert_eq!(d.len(), 120);
        d.extend_from_slice(interp.as_bytes());
        d.push(0);
    }
    d
}

#[test]
fn read_dependencies_refuses_what_is_not_elf() {
    let r = read_dependencies(b"#!/bin/sh\necho hi\n", "/usr/bin/script");
    assert!(matches!(r, Err(ElfError::NotElf(p)) if p == "/usr/bin/script"));
}

#[test]
fn read_dependencies_without_program_headers_is_a_parse_error() {
    let data = tiny_elf(false, "");
    assert!(matches!(read_dependencies(&data, "/x"), Err(ElfError::Parse(_))));
}

#[test]
fn read_dependencies_finds_the_interpreter() {
    let data = tiny_elf(true, "/lib/ld.so");
    let d = read_dependencies(&data, "/x").unwrap();
    assert_eq!(d.interpreter, Some("/lib/ld.so".to_string()));
    assert_eq!(d.rpath_runpath, None);
    assert!(d.needed.is_empty());
}

#[test]
fn get_interpreter_checks_bounds_type_and_content() {
    let mut data = b"xx/lib/ld\0\0yy".to_vec();
    // Segment of another type first, then one out of bounds, then the good one.
    let segs = vec![(1u32, 2u64, 7u64), (PT_INTERP, 10u64, 100u64), (PT_INTERP, 2u64, 9u64)];
    assert_eq!(get_interpreter(&Some(segs), &data).unwrap(), Some("/lib/ld".to_string()));
    // Only NULs: an empty name does not count.
    let segs = vec![(PT_INTERP, 9u64, 2u64)];
    assert_eq!(get_interpreter(&Some(segs), &data).unwrap(), None);
    // Invalid UTF-8 counts as empty.
    data[2] = 0xff;
    let segs = vec![(PT_INTERP, 2u64, 9u64)];
    assert_eq!(get_interpreter(&Some(segs), &data).unwrap(), None);
    assert!(matches!(get_interpreter(&None, &data), Err(ElfError::Parse(_))));
}

#[test]
fn rpath_runpath_and_needed_from_dynamic_entries() {
    let entries = vec![
        (DT_NEEDED, Some("libc.so.6".to_string())),
        (DT_RPATH, Some("/old".to_string())),
        (DT_RUNPATH, Some("$ORIGIN/lib".to_string())),
        (DT_NEEDED, None),
        (DT_RPATH, Some("/new".to_string())),
        (DT_RPATH, None),
        (DT_NEEDED, Some("libm.so.6".to_string())),
        (0, Some("ignored".to_string())),
    ];
    let dynamic = Some(entries);
    assert_eq!(
        get_rpath_runpath(&dynamic),
        Some((Some("/new".to_string()), Some("$ORIGIN/lib".to_string())))
    );
    assert_eq!(get_needed_libraries(&dynamic), vec!["libc.so.6".to_string(), "libm.so.6".to_string()]);
    assert_eq!(get_rpath_runpath(&None), None);
    assert!(get_needed_libraries(&None).is_empty());
}

#[test]
fn search_paths_add_new_directories_in_order() {
    let inherited = vec!["/usr/lib".to_string()];
    let rr = Some((Some("/opt/a:/usr/lib/".to_string()), Some("$ORIGIN/../lib:/opt/b".to_string())));
    let r = object_search_paths(&inherited, "/usr/bin/app", Some("/lib64/ld.so"), &rr);
    assert_eq!(r, vec!["/usr/lib", "/usr/bin", "/lib64", "/usr/bin/../lib", "/opt/b", "/opt/a"]);
    let r = object_search_paths(&inherited, "/usr/lib/libx.so", None, &None);
    assert_eq!(r, vec!["/usr/lib"]);
}

#[test]
fn library_candidates_join_or_keep_absolute() {
    let sp = vec!["/a".to_string(), "/b/".to_string()];
    assert_eq!(library_candidates("libz.so", &sp), vec!["/a/libz.so", "/b/libz.so"]);
    assert_eq!(library_candidates("/opt/libz.so", &sp), vec!["/opt/libz.so"]);
}

#[test]
fn resolution_of_an_object_with_an_interpreter() {
    let (mut res, step) = resolve_executable("bin/app");
    assert!(matches!(step, ResolveStep::Load(ref p) if p == "bin/app"));
    assert_eq!(res.awaits(), Awaiting::Load);
    let data = tiny_elf(true, "/lib/ld.so");
    let step = res.loaded("/usr/bin/app".to_string(), &data);
    assert!(matches!(step, ResolveStep::CheckInterpreter(ref i) if i == "/lib/ld.so"));
    assert_eq!(res.awaits(), Awaiting::Interpreter);
    match res.interpreter_checked(true) {
        ResolveStep::Done(info) => {
            assert_eq!(info.executable_path, "/usr/bin/app");
            assert_eq!(info.library_paths, vec!["/lib/ld.so".to_string()]);
            assert_eq!(info.interpreter, Some("/lib/ld.so".to_string()));
        }
        other => panic!("unexpected step {:?}", other),
    }
    assert_eq!(res.awaits(), Awaiting::Nothing);
}

#[test]
fn resolution_with_a_missing_interpreter_lists_no_library() {
    let (mut res, _) = resolve_executable("/usr/bin/app");
    let data = tiny_elf(true, "/lib/ld.so");
    res.loaded("/usr/bin/app".to_string(), &data);
    match res.interpreter_checked(false) {
        ResolveStep::Done(info) => {
            assert!(info.library_paths.is_empty());
            assert_eq!(info.interpreter, Some("/lib/ld.so".to_string()));
        }
        other => panic!("unexpected step {:?}", other),
    }
}

#[test]
fn resolution_fails_on_a_file_that_is_not_elf() {
    let (mut res, _) = resolve_executable("/usr/bin/app");
    let step = res.loaded("/usr/bin/app".to_string(), b"text");
    assert!(matches!(step, ResolveStep::Failed(ElfError::NotElf(ref p)) if p == "/usr/bin/app"));
    assert_eq!(res.awaits(), Awaiting::Nothing);
}

#[test]
fn executable_rules_list_every_needed_path() {
    let info = ExecutableInfo {
        executable_path: "/usr/bin/app".to_string(),
        library_paths: vec!["/lib/libc.so.6".to_string(), "/usr/lib/libz.so".to_string()],
        interpreter: Some("/lib64/ld.so".to_string()),
    };
    let template = "[[path_beneath]]\nallowed_access = [\"abi.read_execute\"]\nparent = []\n\n[[path_beneath]]\nallowed_access = [\"abi.read_write\"]\nparent = [\"/tmp\"]\n";
    let out = generate_executable_toml(&info, template).unwrap();
    let doc: toml::Table = out.parse().unwrap();
    let entries = doc.get("path_beneath").and_then(|v| v.as_array()).unwrap();
    let parents: Vec<&str> = entries[0].get("parent").and_then(|v| v.as_array()).unwrap().iter().map(|v| v.as_str().unwrap()).collect();
    assert_eq!(parents, ["/lib/libc.so.6", "/lib64/ld.so", "/usr/bin/app", "/usr/lib/libz.so"]);
    let second: Vec<&str> = entries[1].get("parent").and_then(|v| v.as_array()).unwrap().iter().map(|v| v.as_str().unwrap()).collect();
    assert_eq!(second, ["/tmp"]);
    assert_eq!(generate_executable_toml(&info, "not = = toml"), None);
}

#[test]
fn executable_rules_leave_other_templates_as_they_are() {
    let info = ExecutableInfo {
        executable_path: "/usr/bin/app".to_string(),
        library_paths: vec![],
        interpreter: None,
    };
    let out = generate_executable_toml(&info, "[net]\nport = 8080\n").unwrap();
    let doc: toml::Table = out.parse().unwrap();
    assert_eq!(doc.len(), 1);
    assert_eq!(doc.get("net").and_then(|v| v.get("port")).and_then(|v| v.as_integer()), Some(8080));
    let out = generate_executable_toml(&info, "path_beneath = \"x\"\n").unwrap();
    let doc: toml::Table = out.parse().unwrap();
    assert_eq!(doc.get("path_beneath").and_then(|v| v.as_str()), Some("x"));
    let out = generate_executable_toml(&info, "[[path_beneath]]\nallowed_access = []\n").unwrap();
    let doc: toml::Table = out.parse().unwrap();
    let entries = doc.get("path_beneath").and_then(|v| v.as_array()).unwrap();
    let parents: Vec<&str> = entries[0].get("parent").and_then(|v| v.as_array()).unwrap().iter().map(|v| v.as_str().unwrap()).collect();
    assert_eq!(parents, ["/usr/bin/app"]);
}

fn push_u16(d: &mut Vec<u8>, v: u16) {
    d.extend_from_slice(&v.to_le_bytes());
}
fn push_u32(d: &mut Vec<u8>, v: u32) {
    d.extend_from_slice(&v.to_le_bytes());
}
fn push_u64(d: &mut Vec<u8>, v: u64) {
    d.extend_from_slice(&v.to_le_bytes());
}

/// A section header of a 64-bit object.
fn push_section(d: &mut Vec<u8>, sh_type: u32, offset: u64, size: u64, link: u32, entsize: u64) {
    push_u32(d, 0); // sh_name
    push_u32(d, sh_type);
    push_u64(d, 0); // sh_flags
    push_u64(d, 0); // sh_addr
    push_u64(d, offset);
    push_u64(d, size);
    push_u32(d, link);
    push_u32(d, 0); // sh_info
    push_u64(d, 1); // sh_addralign
    push_u64(d, entsize);
}

/// A 64-bit little-endian object with an empty program header table and a
/// dynamic section needing `libfoo.so` and `libbar.so`, with `RPATH` `/opt/rp`.
fn elf_with_dynamic() -> Vec<u8> {
    let mut d: Vec<u8> = Vec::new();
    d.extend_from_slice(&[0x7f, b'E', b'L', b'F', 2, 1, 1, 0, 0, 0, 0, 0, 0, 0, 0, 0]);
    push_u16(&mut d, 3); // e_type
    push_u16(&mut d, 0x3e); // e_machine
    push_u32(&mut d, 1); // e_version
    push_u64(&mut d, 0); // e_entry
    push_u64(&mut d, 64); // e_phoff
    push_u64(&mut d, 184); // e_shoff
    push_u32(&mut d, 0); // e_flags
    push_u16(&mut d, 64); // e_ehsize
    push_u16(&mut d, 56); // e_phentsize
    push_u16(&mut d, 0); // e_phnum
    push_u16(&mut d, 64); // e_shentsize
    push_u16(&mut d, 4); // e_shnum
    push_u16(&mut d, 0); // e_shstrndx
    // .dynstr at 64: "", "libfoo.so" at 1, "libbar.so" at 11, "/opt/rp" at 21.
    d.extend_from_slice(b"\0libfoo.so\0libbar.so\0/opt/rp\0");
    while d.len() < 96 {
        d.push(0);
    }
    // .dynsym at 96: the null symbol.
    d.extend_from_slice(&[0u8; 24]);
    // .dynamic at 120.
    for (tag, val) in [(DT_NEEDED, 1u64), (DT_NEEDED, 11), (DT_RPATH, 21), (0, 0)] {
        d.extend_from_slice(&tag.to_le_bytes());
        push_u64(&mut d, val);
    }
    assert_eq!(d.len(), 184);
    push_section(&mut d, 0, 0, 0, 0, 0);
    push_section(&mut d, 11, 96, 24, 2, 24); // SHT_DYNSYM, linked to .dynstr
    push_section(&mut d, 3, 64, 29, 0, 0); // SHT_STRTAB
    push_section(&mut d, 6, 120, 64, 2, 16); // SHT_DYNAMIC
    d
}

#[test]
fn read_dependencies_reads_the_dynamic_section() {
    let d = read_dependencies(&elf_with_dynamic(), "/usr/bin/app").unwrap();
    assert_eq!(d.interpreter, None);
    assert_eq!(d.rpath_runpath, Some((Some("/opt/rp".to_string()), None)));
    assert_eq!(d.needed, vec!["libfoo.so".to_string(), "libbar.so".to_string()]);
}

#[test]
fn resolution_follows_needed_libraries_depth_first() {
    let (mut res, _) = resolve_executable("/usr/bin/app");
    let step = res.loaded("/usr/bin/app".to_string(), &elf_with_dynamic());
    match step {
        ResolveStep::FindLibrary(c) => assert_eq!(c, vec!["/usr/bin/libfoo.so", "/opt/rp/libfoo.so"]),
        other => panic!("unexpected step {:?}", other),
    }
    let step = res.library_found(Some("/opt/rp/libfoo.so".to_string()));
    assert!(matches!(step, ResolveStep::Load(ref p) if p == "/opt/rp/libfoo.so"));
    let step = res.loaded("/opt/rp/libfoo.so".to_string(), &tiny_elf(true, "/lib/ld.so"));
    assert!(matches!(step, ResolveStep::CheckInterpreter(ref i) if i == "/lib/ld.so"));
    match res.interpreter_checked(true) {
        ResolveStep::FindLibrary(c) => assert_eq!(c, vec!["/usr/bin/libbar.so", "/opt/rp/libbar.so"]),
        other => panic!("unexpected step {:?}", other),
    }
    let step = res.library_found(Some("/usr/bin/libbar.so".to_string()));
    assert!(matches!(step, ResolveStep::Load(_)));
    let step = res.loaded("/usr/bin/libbar.so".to_string(), &tiny_elf(true, "/lib/ld.so"));
    assert!(matches!(step, ResolveStep::CheckInterpreter(_)));
    match res.interpreter_checked(true) {
        ResolveStep::Done(info) => {
            assert_eq!(info.executable_path, "/usr/bin/app");
            assert_eq!(info.interpreter, None);
            assert_eq!(info.library_paths, vec!["/lib/ld.so", "/opt/rp/libfoo.so", "/usr/bin/libbar.so"]);
        }
        other => panic!("unexpected step {:?}", other),
    }
}

#[test]
fn resolution_fails_on_a_library_not_found() {
    let (mut res, _) = resolve_executable("/usr/bin/app");
    res.loaded("/usr/bin/app".to_string(), &elf_with_dynamic());
    let step = res.library_found(None);
    assert!(matches!(
        step,
        ResolveStep::Failed(ElfError::LibraryNotFound(ref n, ref o)) if n == "libfoo.so" && o == "/usr/bin/app"
    ));
    assert_eq!(res.awaits(), Awaiting::Nothing);
}
