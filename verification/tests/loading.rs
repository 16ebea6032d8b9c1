use rcore::batch::{run_next_app, AppManager, KernelStack, UserStack, APP_SIZE_LIMIT};
use rcore::link_app::{app_name, insert_app_data, sort_apps};
use rcore::loader::{app_names, get_app_data, get_app_data_by_name, get_num_app};

#[test]
fn a_batch_runs_in_order() {
    let table = [2usize, 0x1000, 0x1003, 0x1008];
    let mut m = AppManager::new(&table);
    assert_eq!(m.app_info(), vec![(0x1000, 0x1003), (0x1003, 0x1008)]);
    assert_eq!(m.get_current_app(), 0);
    let mut kstack = KernelStack { base: 0x80300000, data: vec![7; 8192] };
    let ustack = UserStack { base: 0x80310000 };
    let (first, cx) = run_next_app(&mut m, b"abc", &mut kstack, &ustack, 0x120).unwrap();
    assert_eq!(first.len(), APP_SIZE_LIMIT);
    assert_eq!(&first[..4], b"abc\0");
    assert_eq!(m.get_current_app(), 1);
    assert_eq!(cx, 0x80302000 - 34 * 8);
    let start = 8192 - 34 * 8;
    assert_eq!(kstack.data[start - 1], 7);
    let word = |i: usize| {
        let at = start + 8 * i;
        u64::from_le_bytes(kstack.data[at..at + 8].try_into().unwrap())
    };
    assert_eq!(word(2), 0x80312000);
    assert_eq!(word(3), 0);
    assert_eq!(word(32), 0x20);
    assert_eq!(word(33), 0x80400000);
    assert_eq!(start + 8 * 34, kstack.data.len());
    let (second, _) = run_next_app(&mut m, b"defgh", &mut kstack, &ustack, 0).unwrap();
    assert_eq!(&second[..6], b"defgh\0");
    assert!(run_next_app(&mut m, b"", &mut kstack, &ustack, 0).is_none());
    assert_eq!(m.get_current_app(), 2);
}

#[test]
fn programs_are_found_by_name() {
    let table = [3usize, 100, 103, 103, 107];
    let image = b"onethree";
    let names = app_names(b"one\0two\0drei\0rest", 3);
    assert_eq!(names, vec!["one".to_string(), "two".to_string(), "drei".to_string()]);
    assert_eq!(get_num_app(&table), 3);
    assert_eq!(get_app_data(&table, image, 100, 0), b"one");
    assert_eq!(get_app_data(&table, image, 100, 1), b"");
    assert_eq!(get_app_data_by_name(&table, image, 100, &names, "drei"), Some(&b"thre"[..]));
    assert_eq!(get_app_data_by_name(&table, image, 100, &names, "four"), None);
}

#[test]
fn names_lose_their_extension() {
    assert_eq!(app_name("ch2b_hello.rs"), "ch2b_hello");
    assert_eq!(app_name("a.tar.gz"), "a");
    assert_eq!(app_name(".hidden"), "");
    assert_eq!(app_name("ä.elf"), "ä");
}

#[test]
fn names_are_sorted_by_bytes() {
    let v: Vec<String> = ["b", "a", "ab", "", "Z", "b"].iter().map(|s| s.to_string()).collect();
    let mut expected = v.clone();
    expected.sort();
    assert_eq!(sort_apps(v), expected);
    assert_eq!(expected, vec!["", "Z", "a", "ab", "b", "b"]);
}

#[test]
fn the_link_text_lists_all_programs() {
    let apps: Vec<String> = (0..11).map(|i| format!("app{}", i)).collect();
    let text = insert_app_data(&apps);
    let start = r#"
    .align 3    // yifan 2026/5/23: 按 8 字节边界对齐。
    .section .data    // yifan 2026/5/23: 切换到数据段。
    .global _num_app    // yifan 2026/5/23: 导出全局符号 _num_app，供内核侧引用。
_num_app:
    .quad 11
    .quad app_0_start
"#;
    assert!(text.starts_with(start));
    let middle = r#"    .quad app_10_start
    .quad app_10_end
    // yifan 2026/5/23: 下面这段汇编将定义应用名表的全局入口标签。
    .global _app_names
_app_names:
    .string "app0"
    .string "app1"
"#;
    assert!(text.contains(middle));
    let end = r#"    .string "app10"

    .section .data    // yifan 2026/5/23: 切到内核镜像数据段；这里放的是用户程序 ELF 原始字节（静态数据），不是用户虚拟地址表。
    .global app_0_start    // yifan 2026/5/23: 导出该应用字节块起始符号，便于内核引用。
    .global app_0_end    // yifan 2026/5/23: 导出该应用字节块结束符号，和 start 共同定义范围。
    .align 3    // yifan 2026/5/23: 将后续起始地址按 8 字节对齐。
app_0_start:
    .incbin "../user/build/elf/app0.elf"    // yifan 2026/5/23: 把 `../user/build/elf/app0.elf` 的原始文件字节嵌入镜像；运行时由内核解析 ELF 并映射到用户地址空间。
app_0_end:
"#;
    assert!(text.contains(end));
    let last = r#"
    .section .data    // yifan 2026/5/23: 切到内核镜像数据段；这里放的是用户程序 ELF 原始字节（静态数据），不是用户虚拟地址表。
    .global app_10_start    // yifan 2026/5/23: 导出该应用字节块起始符号，便于内核引用。
    .global app_10_end    // yifan 2026/5/23: 导出该应用字节块结束符号，和 start 共同定义范围。
    .align 3    // yifan 2026/5/23: 将后续起始地址按 8 字节对齐。
app_10_start:
    .incbin "../user/build/elf/app10.elf"    // yifan 2026/5/23: 把 `../user/build/elf/app10.elf` 的原始文件字节嵌入镜像；运行时由内核解析 ELF 并映射到用户地址空间。
app_10_end:
"#;
    assert!(text.ends_with(last));
}

#[test]
fn the_link_text_of_one_program() {
    let text = r#"
    .align 3    // yifan 2026/5/23: 按 8 字节边界对齐。
    .section .data    // yifan 2026/5/23: 切换到数据段。
    .global _num_app    // yifan 2026/5/23: 导出全局符号 _num_app，供内核侧引用。
_num_app:
    .quad 1
    .quad app_0_start
    .quad app_0_end
    // yifan 2026/5/23: 下面这段汇编将定义应用名表的全局入口标签。
    .global _app_names
_app_names:
    .string "x"

    .section .data    // yifan 2026/5/23: 切到内核镜像数据段；这里放的是用户程序 ELF 原始字节（静态数据），不是用户虚拟地址表。
    .global app_0_start    // yifan 2026/5/23: 导出该应用字节块起始符号，便于内核引用。
    .global app_0_end    // yifan 2026/5/23: 导出该应用字节块结束符号，和 start 共同定义范围。
    .align 3    // yifan 2026/5/23: 将后续起始地址按 8 字节对齐。
app_0_start:
    .incbin "../user/build/elf/x.elf"    // yifan 2026/5/23: 把 `../user/build/elf/x.elf` 的原始文件字节嵌入镜像；运行时由内核解析 ELF 并映射到用户地址空间。
app_0_end:
"#;
    assert_eq!(insert_app_data(&vec!["x".to_string()]), text);
}
