//! The text with which programs are linked to the kernel.
use crate::mm::user::push_char;
use vstd::prelude::*;
use vstd::string::StringExecFns;
use vstd::utf8::{
    encode_utf8, encode_utf8_valid_utf8, is_char_boundary_iff_not_is_continuation_byte,
    utf8_byte_ranges_bitwise,
};

verus! {

/// The digits of a number.
pub open spec fn decimal(n: nat) -> Seq<char>
    decreases n,
{
    let digit = (48 + n % 10) as char;
    if n < 10 {
        seq![digit]
    } else {
        decimal(n / 10).push(digit)
    }
}

/// Append the digits of a number.
fn push_decimal(s: &mut String, n: usize)
    ensures
        final(s)@ == old(s)@ + decimal(n as nat),
    decreases n,
{
    let digit: u8 = 48 + (n % 10) as u8;
    if n < 10 {
        push_char(s, digit as char);
        assert(s@ =~= old(s)@ + decimal(n as nat));
    } else {
        push_decimal(s, n / 10);
        push_char(s, digit as char);
        assert(s@ =~= old(s)@ + decimal(n as nat));
    }
}

/// Where the programs are.
pub open spec fn target_path() -> Seq<char> {
    "../user/build/elf/"@
}

/// What stands before the number of programs. In this text and in those that follow, a line
/// for the assembler may end in a remark.
pub const HEAD: &'static str = r#"
    .align 3    // yifan 2026/5/23: 按 8 字节边界对齐。
    .section .data    // yifan 2026/5/23: 切换到数据段。
    .global _num_app    // yifan 2026/5/23: 导出全局符号 _num_app，供内核侧引用。
_num_app:
    .quad "#;

/// What stands before the names.
pub const NAMES: &'static str = r#"    // yifan 2026/5/23: 下面这段汇编将定义应用名表的全局入口标签。
    .global _app_names
_app_names:
"#;

/// The text of a program up to its first number.
pub const APP_SECTION: &'static str = r#"
    .section .data    // yifan 2026/5/23: 切到内核镜像数据段；这里放的是用户程序 ELF 原始字节（静态数据），不是用户虚拟地址表。
    .global app_"#;

/// The text of a program between its first number and its second.
pub const APP_START: &'static str = r#"_start    // yifan 2026/5/23: 导出该应用字节块起始符号，便于内核引用。
    .global app_"#;

/// The text of a program between its second number and its third.
pub const APP_END: &'static str = r#"_end    // yifan 2026/5/23: 导出该应用字节块结束符号，和 start 共同定义范围。
    .align 3    // yifan 2026/5/23: 将后续起始地址按 8 字节对齐。
app_"#;

/// The text of a program between its third number and the path of its file.
pub const APP_BYTES: &'static str = r#"_start:
    .incbin ""#;

/// The text of a program between the path of its file and the same path again.
pub const APP_FILE: &'static str = r#".elf"    // yifan 2026/5/23: 把 `"#;

/// The text of a program behind that path.
pub const APP_BEHIND: &'static str = r#".elf` 的原始文件字节嵌入镜像；运行时由内核解析 ELF 并映射到用户地址空间。
app_"#;

/// The end of the text of a program.
pub const APP_LAST: &'static str = r#"_end:
"#;

/// The number of programs.
pub open spec fn head_text(n: nat) -> Seq<char> {
    HEAD@ + decimal(n) + "\n"@
}

/// Where the first `n` programs start.
pub open spec fn starts_text(n: nat) -> Seq<char>
    decreases n,
{
    if n == 0 {
        Seq::empty()
    } else {
        starts_text((n - 1) as nat) + "    .quad app_"@ + decimal((n - 1) as nat) + "_start\n"@
    }
}

/// The names of the first `n` programs.
pub open spec fn names_text(apps: Seq<String>, n: nat) -> Seq<char>
    decreases n,
{
    if n == 0 {
        Seq::empty()
    } else {
        names_text(apps, (n - 1) as nat) + "    .string \""@ + apps[n - 1]@ + "\"\n"@
    }
}

/// One program: its bytes between the symbols for its start and its end.
pub open spec fn app_text(app: Seq<char>, i: nat) -> Seq<char> {
    APP_SECTION@ + decimal(i) + APP_START@ + decimal(i) + APP_END@ + decimal(i) + APP_BYTES@
        + target_path() + app + APP_FILE@ + target_path() + app + APP_BEHIND@ + decimal(i)
        + APP_LAST@
}

/// The first `n` programs.
pub open spec fn apps_text(apps: Seq<String>, n: nat) -> Seq<char>
    decreases n,
{
    if n == 0 {
        Seq::empty()
    } else {
        apps_text(apps, (n - 1) as nat) + app_text(apps[n - 1]@, (n - 1) as nat)
    }
}

/// The whole text: the number of programs and where they lie, their names, and the programs.
pub open spec fn link_text(apps: Seq<String>) -> Seq<char> {
    let n = apps.len();
    head_text(n) + starts_text(n) + "    .quad app_"@ + decimal((n - 1) as nat) + "_end\n"@ + NAMES@
        + names_text(apps, n) + apps_text(apps, n)
}

/// Append the text of one program.
fn push_app(f: &mut String, app: &String, i: usize)
    ensures
        final(f)@ == old(f)@ + app_text(app@, i as nat),
{
    f.append(APP_SECTION);
    push_decimal(f, i);
    f.append(APP_START);
    push_decimal(f, i);
    f.append(APP_END);
    push_decimal(f, i);
    f.append(APP_BYTES);
    f.append("../user/build/elf/");
    f.append(app.as_str());
    f.append(APP_FILE);
    f.append("../user/build/elf/");
    f.append(app.as_str());
    f.append(APP_BEHIND);
    push_decimal(f, i);
    f.append(APP_LAST);
    assert(f@ =~= old(f)@ + app_text(app@, i as nat));
}

/// get app data and build linker: the text for the given programs.
pub fn insert_app_data(apps: &Vec<String>) -> (r: String)
    requires
        apps@.len() > 0,
    ensures
        r@ == link_text(apps@),
{
    let n: usize = apps.len();
    let mut f: String = String::new();
    f.append(HEAD);
    push_decimal(&mut f, n);
    f.append("\n");
    assert(f@ =~= head_text(n as nat));
    let ghost t0 = f@;
    let mut i: usize = 0;
    assert(t0 + starts_text(0) =~= t0);
    while i < n
        invariant
            i <= n,
            f@ == t0 + starts_text(i as nat),
        decreases n - i,
    {
        f.append("    .quad app_");
        push_decimal(&mut f, i);
        f.append("_start\n");
        i += 1;
        assert(f@ =~= t0 + starts_text(i as nat));
    }
    f.append("    .quad app_");
    push_decimal(&mut f, n - 1);
    f.append("_end\n");
    f.append(NAMES);
    let ghost t1 = f@;
    i = 0;
    assert(t1 + names_text(apps@, 0) =~= t1);
    while i < n
        invariant
            i <= n,
            n == apps@.len(),
            f@ == t1 + names_text(apps@, i as nat),
        decreases n - i,
    {
        f.append("    .string \"");
        f.append(apps[i].as_str());
        f.append("\"\n");
        i += 1;
        assert(f@ =~= t1 + names_text(apps@, i as nat));
    }
    let ghost t2 = f@;
    i = 0;
    assert(t2 + apps_text(apps@, 0) =~= t2);
    while i < n
        invariant
            i <= n,
            n == apps@.len(),
            f@ == t2 + apps_text(apps@, i as nat),
        decreases n - i,
    {
        push_app(&mut f, &apps[i], i);
        i += 1;
        assert(f@ =~= t2 + apps_text(apps@, i as nat));
    }
    assert(f@ =~= link_text(apps@));
    f
}

/// The index of the first dot from `i` on, or the number of bytes if there is none.
pub open spec fn dot_from(b: Seq<u8>, i: int) -> int
    decreases b.len() - i,
{
    if i < 0 || i >= b.len() || b[i] == 46 {
        i
    } else {
        dot_from(b, i + 1)
    }
}

/// The name of a program: the name of its file up to the first dot.
pub fn app_name(name_with_ext: &str) -> (r: String)
    requires
        dot_from(encode_utf8(name_with_ext@), 0) < encode_utf8(name_with_ext@).len(),
    ensures
        encode_utf8(r@) == encode_utf8(name_with_ext@).take(
            dot_from(encode_utf8(name_with_ext@), 0),
        ),
{
    let bytes: &[u8] = name_with_ext.as_bytes();
    let ghost b = encode_utf8(name_with_ext@);
    let ghost d = dot_from(b, 0);
    let len: usize = bytes.len();
    let mut i: usize = 0;
    while i < len && bytes[i] != 46
        invariant
            i <= len,
            len == bytes@.len(),
            bytes@ == b,
            dot_from(b, i as int) == d,
        decreases len - i,
    {
        i += 1;
    }
    proof {
        encode_utf8_valid_utf8(name_with_ext@);
        utf8_byte_ranges_bitwise(b[i as int]);
        is_char_boundary_iff_not_is_continuation_byte(b, i as int);
    }
    let (name, _ext) = name_with_ext.split_at(i);
    proof {
        assert(encode_utf8(name@) =~= b.take(d));
    }
    name.to_owned()
}

/// One string of bytes is not behind another one in the order of their bytes.
pub open spec fn not_behind(a: Seq<u8>, b: Seq<u8>) -> bool
    decreases a.len(),
{
    if a.len() == 0 {
        true
    } else if b.len() == 0 {
        false
    } else if a[0] != b[0] {
        a[0] < b[0]
    } else {
        not_behind(a.skip(1), b.skip(1))
    }
}

/// Any two strings of bytes are in order one way or the other.
proof fn lemma_total(a: Seq<u8>, b: Seq<u8>)
    ensures
        not_behind(a, b) || not_behind(b, a),
    decreases a.len(),
{
    if a.len() > 0 && b.len() > 0 && a[0] == b[0] {
        lemma_total(a.skip(1), b.skip(1));
    }
}

/// The order of strings of bytes is transitive.
proof fn lemma_trans(a: Seq<u8>, b: Seq<u8>, c: Seq<u8>)
    requires
        not_behind(a, b),
        not_behind(b, c),
    ensures
        not_behind(a, c),
    decreases a.len(),
{
    if a.len() > 0 && b.len() > 0 && c.len() > 0 && a[0] == b[0] && b[0] == c[0] {
        lemma_trans(a.skip(1), b.skip(1), c.skip(1));
    }
}

/// Whether a string is not behind another one in the order of their bytes.
fn is_not_behind(x: &str, y: &str) -> (r: bool)
    ensures
        r == not_behind(encode_utf8(x@), encode_utf8(y@)),
{
    let a: &[u8] = x.as_bytes();
    let b: &[u8] = y.as_bytes();
    let mut i: usize = 0;
    assert(a@.skip(0) =~= a@);
    assert(b@.skip(0) =~= b@);
    while i < a.len() && i < b.len()
        invariant
            i <= a@.len(),
            i <= b@.len(),
            not_behind(a@.skip(i as int), b@.skip(i as int)) == not_behind(a@, b@),
            a@ == encode_utf8(x@),
            b@ == encode_utf8(y@),
        decreases a@.len() - i,
    {
        let ghost p = a@.skip(i as int);
        let ghost q = b@.skip(i as int);
        assert(p[0] == a@[i as int] && q[0] == b@[i as int]);
        if a[i] != b[i] {
            return a[i] < b[i];
        }
        proof {
            assert(p.skip(1) =~= a@.skip(i + 1));
            assert(q.skip(1) =~= b@.skip(i + 1));
        }
        i += 1;
    }
    i >= a.len()
}

/// The names are in order.
pub open spec fn in_order(v: Seq<String>) -> bool {
    forall|i: int, j: int|
        0 <= i <= j < v.len() ==> not_behind(
            encode_utf8(#[trigger] v[i]@),
            encode_utf8(#[trigger] v[j]@),
        )
}

/// Putting an element into a sequence puts it into the collection of its elements.
proof fn lemma_insert(s: Seq<String>, p: int, a: String)
    requires
        0 <= p <= s.len(),
    ensures
        s.insert(p, a).to_multiset() == s.to_multiset().insert(a),
{
    broadcast use vstd::seq_lib::group_to_multiset_ensures;

    let t = s.insert(p, a);
    vstd::seq_lib::to_multiset_remove(t, p);
    assert(t.remove(p) =~= s);
    assert(t[p] == a);
    assert(t.contains(a));
    assert(t.to_multiset().count(a) > 0);
    assert(t.to_multiset() =~= s.to_multiset().insert(a));
}

/// Put the names in order.
pub fn sort_apps(apps: Vec<String>) -> (r: Vec<String>)
    ensures
        in_order(r@),
        r@.to_multiset() == apps@.to_multiset(),
{
    let mut rest: Vec<String> = apps;
    let mut sorted: Vec<String> = Vec::new();
    let ghost all = apps@.to_multiset();
    proof {
        broadcast use vstd::seq_lib::group_to_multiset_ensures;

        assert(sorted@.to_multiset() =~= vstd::multiset::Multiset::empty());
        assert(sorted@.to_multiset().add(rest@.to_multiset()) =~= all);
    }
    while rest.len() > 0
        invariant
            in_order(sorted@),
            sorted@.to_multiset().add(rest@.to_multiset()) == all,
        decreases rest@.len(),
    {
        let ghost r0 = rest@;
        let ghost s0 = sorted@;
        let app: String = rest.pop().unwrap();
        let ghost a = app;
        let mut p: usize = 0;
        while p < sorted.len() && is_not_behind(sorted[p].as_str(), app.as_str())
            invariant
                p <= sorted@.len(),
                sorted@ == s0,
                in_order(s0),
                forall|i: int|
                    0 <= i < p ==> not_behind(
                        encode_utf8(#[trigger] s0[i]@),
                        encode_utf8(app@),
                    ),
            decreases sorted@.len() - p,
        {
            p += 1;
        }
        sorted.insert(p, app);
        proof {
            broadcast use vstd::seq_lib::group_to_multiset_ensures;

            let s1 = sorted@;
            if p < s0.len() {
                lemma_total(encode_utf8(s0[p as int]@), encode_utf8(a@));
            }
            assert forall|i: int| p <= i < s0.len() implies not_behind(
                encode_utf8(a@),
                encode_utf8(#[trigger] s0[i]@),
            ) by {
                lemma_trans(
                    encode_utf8(a@),
                    encode_utf8(s0[p as int]@),
                    encode_utf8(s0[i]@),
                );
            }
            assert forall|i: int, j: int| 0 <= i <= j < s1.len() implies not_behind(
                encode_utf8(#[trigger] s1[i]@),
                encode_utf8(#[trigger] s1[j]@),
            ) by {
                if i == p && j == p {
                    lemma_total(encode_utf8(a@), encode_utf8(a@));
                }
            }
            lemma_insert(s0, p as int, a);
            assert(r0 =~= rest@.push(a));
            vstd::seq_lib::to_multiset_build(rest@, a);
            assert(sorted@.to_multiset().add(rest@.to_multiset()) =~= all);
        }
    }
    proof {
        broadcast use vstd::seq_lib::group_to_multiset_ensures;

        assert(rest@ =~= Seq::<String>::empty());
        assert(rest@.to_multiset() =~= vstd::multiset::Multiset::empty());
        assert(sorted@.to_multiset() =~= all);
    }
    sorted
}

/// A number is the value of its digits.
pub proof fn law_decimal(n: nat)
    ensures
        decimal(n).len() > 0,
        value(decimal(n)) == n,
        forall|i: int|
            0 <= i < decimal(n).len() ==> '0' <= #[trigger] decimal(n)[i] && decimal(n)[i] <= '9',
        n > 0 ==> decimal(n)[0] != '0',
    decreases n,
{
    let s = decimal(n);
    if n >= 10 {
        law_decimal(n / 10);
        assert(s.drop_last() =~= decimal(n / 10));
    } else {
        assert(s.drop_last() =~= Seq::<char>::empty());
        assert(value(Seq::<char>::empty()) == 0);
    }
}

/// The name of a program is what stands before the first dot in the name of its file.
pub proof fn law_app_name(b: Seq<u8>, i: int)
    requires
        0 <= i <= b.len(),
    ensures
        i <= dot_from(b, i) <= b.len(),
        forall|k: int| i <= k < dot_from(b, i) ==> #[trigger] b[k] != 46,
        dot_from(b, i) < b.len() ==> b[dot_from(b, i)] == 46,
    decreases b.len() - i,
{
    if i < b.len() && b[i] != 46 {
        law_app_name(b, i + 1);
    }
}

/// The order of names is that of their first different byte. A name is not behind one that it
/// is the front of.
pub proof fn law_name_order(a: Seq<u8>, b: Seq<u8>, k: int)
    requires
        0 <= k <= a.len(),
        k <= b.len(),
        forall|i: int| 0 <= i < k ==> a[i] == b[i],
    ensures
        k == a.len() ==> not_behind(a, b),
        k == b.len() && k < a.len() ==> !not_behind(a, b),
        k < a.len() && k < b.len() && a[k] < b[k] ==> not_behind(a, b),
        k < a.len() && k < b.len() && a[k] > b[k] ==> !not_behind(a, b),
    decreases k,
{
    if k > 0 {
        assert(a[0] == b[0]);
        assert forall|i: int| 0 <= i < k - 1 implies a.skip(1)[i] == b.skip(1)[i] by {
            assert(a[i + 1] == b[i + 1]);
        }
        law_name_order(a.skip(1), b.skip(1), k - 1);
    }
}

/// The value of decimal digits.
pub open spec fn value(s: Seq<char>) -> int
    decreases s.len(),
{
    if s.len() == 0 {
        0
    } else {
        10 * value(s.drop_last()) + (s.last() as int - 48)
    }
}

} // verus!
