//! Loading user applications into memory
use crate::easy_fs::layout::{lemma_zero_from, str_from_utf8, zero_from};
use crate::easy_fs::vfs::same_str;
use vstd::prelude::*;
use vstd::utf8::{decode_utf8, encode_utf8, valid_utf8};

verus! {

/// The table of programs that is linked to the kernel, and the memory in which they lie:
/// the number of programs, the addresses at which they start, the one at which the last
/// ends, and the bytes from `base` on.
pub open spec fn table_ok(table: Seq<usize>, image: Seq<u8>, base: usize) -> bool {
    &&& table.len() > 0
    &&& table[0] <= table.len() - 2
    &&& forall|i: int| 0 <= i < table[0] ==> #[trigger] app_inside(table, image, base, i)
}

/// A program lies in the memory.
pub open spec fn app_inside(table: Seq<usize>, image: Seq<u8>, base: usize, i: int) -> bool {
    base <= table[i + 1] <= table[i + 2] <= base + image.len()
}

/// The bytes of a program.
pub open spec fn app_data(table: Seq<usize>, image: Seq<u8>, base: usize, i: int) -> Seq<u8> {
    image.subrange(table[i + 1] - base, table[i + 2] - base)
}

///get app number
pub fn get_num_app(table: &[usize]) -> (r: usize)
    requires
        table@.len() > 0,
    ensures
        r == table@[0],
{
    table[0]
}

/// get applications data
pub fn get_app_data<'a>(table: &[usize], image: &'a [u8], base: usize, app_id: usize) -> (r: &'a [u8])
    requires
        table_ok(table@, image@, base),
        app_id < table@[0],
    ensures
        r@ == app_data(table@, image@, base, app_id as int),
{
    let len: usize = table.len();
    let n: usize = image.len();
    assert(app_inside(table@, image@, base, app_id as int));
    let start: usize = table[app_id + 1] - base;
    let end: usize = table[app_id + 2] - base;
    vstd::slice::slice_subrange(image, start, end)
}

/// `n` names follow each other from `start` on, each with a zero byte behind it.
pub open spec fn names_ok(b: Seq<u8>, start: int, n: int) -> bool
    decreases n,
{
    n <= 0 || {
        let end = zero_from(b, start);
        &&& 0 <= start <= end < b.len()
        &&& valid_utf8(b.subrange(start, end))
        &&& names_ok(b, end + 1, n - 1)
    }
}

/// The `n` names that follow each other from `start` on.
pub open spec fn names_from(b: Seq<u8>, start: int, n: int) -> Seq<Seq<char>>
    decreases n,
{
    if n <= 0 {
        Seq::empty()
    } else {
        let end = zero_from(b, start);
        seq![decode_utf8(b.subrange(start, end))] + names_from(b, end + 1, n - 1)
    }
}

/// The characters of each string.
pub open spec fn texts(v: Seq<String>) -> Seq<Seq<char>> {
    Seq::new(v.len(), |i: int| v[i]@)
}

/// The names of all programs: `names` holds them one behind the other, each with a zero
/// byte behind it.
pub fn app_names(names: &[u8], num_app: usize) -> (r: Vec<String>)
    requires
        names_ok(names@, 0, num_app as int),
    ensures
        texts(r@) == names_from(names@, 0, num_app as int),
{
    let len: usize = names.len();
    let ghost all = names_from(names@, 0, num_app as int);
    let mut v: Vec<String> = Vec::new();
    let mut start: usize = 0;
    let mut i: usize = 0;
    assert(texts(v@) + all =~= all);
    while i < num_app
        invariant
            i <= num_app,
            len == names@.len(),
            start <= len,
            names_ok(names@, start as int, num_app - i),
            texts(v@) + names_from(names@, start as int, num_app - i) == all,
        decreases num_app - i,
    {
        let mut end: usize = start;
        let ghost e = zero_from(names@, start as int);
        proof {
            lemma_zero_from(names@, start as int);
        }
        while names[end] != 0
            invariant
                start <= end <= e,
                e < len,
                names@[e] == 0,
                len == names@.len(),
                zero_from(names@, end as int) == e,
            ensures
                end == e,
            decreases len - end,
        {
            end += 1;
        }
        let slice: &[u8] = vstd::slice::slice_subrange(names, start, end);
        let name: &str = str_from_utf8(slice).unwrap();
        let ghost v0 = texts(v@);
        let ghost rest = names_from(names@, e + 1, num_app - i - 1);
        v.push(name.to_owned());
        proof {
            assert(texts(v@) =~= v0.push(name@));
            assert(v0 + (seq![name@] + rest) =~= v0.push(name@) + rest);
        }
        start = end + 1;
        i += 1;
    }
    assert(texts(v@) =~= all);
    v
}

/// The index of the first program with a name, from `i` on, or the number of programs if
/// there is none.
pub open spec fn app_index(names: Seq<String>, name: Seq<u8>, i: int) -> int
    decreases names.len() - i,
{
    if i < 0 || i >= names.len() || encode_utf8(names[i]@) == name {
        i
    } else {
        app_index(names, name, i + 1)
    }
}

///get app data from name
pub fn get_app_data_by_name<'a>(
    table: &[usize],
    image: &'a [u8],
    base: usize,
    names: &Vec<String>,
    name: &str,
) -> (r: Option<&'a [u8]>)
    requires
        table_ok(table@, image@, base),
        names@.len() == table@[0],
    ensures
        ({
            let i = app_index(names@, encode_utf8(name@), 0);
            match r {
                Some(data) => i < names@.len() && data@ == app_data(table@, image@, base, i),
                None => i >= names@.len(),
            }
        }),
{
    let num_app: usize = get_num_app(table);
    let mut i: usize = 0;
    while i < num_app
        invariant
            i <= num_app,
            num_app == names@.len(),
            num_app == table@[0],
            table_ok(table@, image@, base),
            app_index(names@, encode_utf8(name@), i as int) == app_index(
                names@,
                encode_utf8(name@),
                0,
            ),
        decreases num_app - i,
    {
        if same_str(names[i].as_str(), name) {
            return Some(get_app_data(table, image, base, i));
        }
        i += 1;
    }
    None
}

/// A program reaches from the address at which it starts to the one at which the next starts.
pub proof fn law_app_bytes(table: Seq<usize>, image: Seq<u8>, base: usize, i: int, j: int)
    requires
        table_ok(table, image, base),
        0 <= i < table[0],
        0 <= j < table[i + 2] - table[i + 1],
    ensures
        app_data(table, image, base, i).len() == table[i + 2] - table[i + 1],
        app_data(table, image, base, i)[j] == image[table[i + 1] + j - base],
{
    assert(app_inside(table, image, base, i));
}

/// The names lie one behind the other: a name ends at the first zero byte from its start on,
/// and the next starts behind it.
pub proof fn law_names(b: Seq<u8>, start: int, n: int, end: int, i: int)
    requires
        names_ok(b, start, n),
        0 < n,
        0 <= start <= end < b.len(),
        b[end] == 0,
        forall|k: int| start <= k < end ==> b[k] != 0,
    ensures
        names_from(b, start, n).len() == n,
        names_from(b, start, n)[0] == decode_utf8(b.subrange(start, end)),
        0 <= i < n - 1 ==> names_from(b, start, n)[i + 1] == names_from(b, end + 1, n - 1)[i],
    decreases n,
{
    lemma_zero_from(b, start);
    assert(zero_from(b, start) == end) by {
        let z = zero_from(b, start);
        if z < end {
            assert(b[z] != 0);
        }
    }
    lemma_names_len(b, start, n);
    lemma_names_len(b, end + 1, n - 1);
}

/// There are as many names as are asked for.
proof fn lemma_names_len(b: Seq<u8>, start: int, n: int)
    requires
        0 <= n,
    ensures
        names_from(b, start, n).len() == n,
    decreases n,
{
    if n > 0 {
        lemma_names_len(b, zero_from(b, start) + 1, n - 1);
    }
}

/// A program is found by its name where it first stands.
pub proof fn law_app_found(names: Seq<String>, name: Seq<u8>, i: int, k: int)
    requires
        0 <= i <= k <= names.len(),
        forall|j: int| i <= j < k ==> encode_utf8((#[trigger] names[j])@) != name,
        k == names.len() || encode_utf8(names[k]@) == name,
    ensures
        app_index(names, name, i) == k,
    decreases names.len() - i,
{
    if i < k {
        assert(encode_utf8(names[i]@) != name);
        law_app_found(names, name, i + 1, k);
    }
}

} // verus!
