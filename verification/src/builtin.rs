//! The built-in word books and where they are downloaded from.

use vstd::prelude::*;
use crate::text::{chars_of, string_of};

verus! {

broadcast use vstd::string::group_string_axioms;

/// A built-in word book: its title, file name and path under the download base.
pub struct BuiltinBook {
    pub title: &'static str,
    pub filename: &'static str,
    pub remote_path: &'static str,
}

/// A built-in word book as the book picker lists it.
#[derive(Debug, Clone)]
pub struct BuiltinBookDef {
    pub index: usize,
    pub title: String,
    pub filename: String,
}

/// `(title, filename, remote_path)` of each built-in book, in catalogue order.
pub open spec fn builtin_catalog() -> Seq<(Seq<char>, Seq<char>, Seq<char>)> {
    seq![
        ("初中词书"@, "1 初中-乱序.txt"@, "1%20%E5%88%9D%E4%B8%AD-%E4%B9%B1%E5%BA%8F.txt"@),
        ("高中词书"@, "2 高中-乱序.txt"@, "2%20%E9%AB%98%E4%B8%AD-%E4%B9%B1%E5%BA%8F.txt"@),
        ("四级词书"@, "3 四级-乱序.txt"@, "3%20%E5%9B%9B%E7%BA%A7-%E4%B9%B1%E5%BA%8F.txt"@),
        ("六级词书"@, "4 六级-乱序.txt"@, "4%20%E5%85%AD%E7%BA%A7-%E4%B9%B1%E5%BA%8F.txt"@),
        ("考研词书"@, "5 考研-乱序.txt"@, "5%20%E8%80%83%E7%A0%94-%E4%B9%B1%E5%BA%8F.txt"@),
        ("托福词书"@, "6 托福-乱序.txt"@, "6%20%E6%89%98%E7%A6%8F-%E4%B9%B1%E5%BA%8F.txt"@),
        ("SAT词书"@, "7 SAT-乱序.txt"@, "7%20SAT-%E4%B9%B1%E5%BA%8F.txt"@),
    ]
}

pub open spec fn book_view(b: BuiltinBook) -> (Seq<char>, Seq<char>, Seq<char>) {
    (b.title@, b.filename@, b.remote_path@)
}

/// The built-in books, in catalogue order.
pub fn builtin_books() -> (r: Vec<BuiltinBook>)
    ensures
        r@.map_values(|b: BuiltinBook| book_view(b)) == builtin_catalog(),
{
    let r = vec![
        BuiltinBook {
            title: "初中词书",
            filename: "1 初中-乱序.txt",
            remote_path: "1%20%E5%88%9D%E4%B8%AD-%E4%B9%B1%E5%BA%8F.txt",
        },
        BuiltinBook {
            title: "高中词书",
            filename: "2 高中-乱序.txt",
            remote_path: "2%20%E9%AB%98%E4%B8%AD-%E4%B9%B1%E5%BA%8F.txt",
        },
        BuiltinBook {
            title: "四级词书",
            filename: "3 四级-乱序.txt",
            remote_path: "3%20%E5%9B%9B%E7%BA%A7-%E4%B9%B1%E5%BA%8F.txt",
        },
        BuiltinBook {
            title: "六级词书",
            filename: "4 六级-乱序.txt",
            remote_path: "4%20%E5%85%AD%E7%BA%A7-%E4%B9%B1%E5%BA%8F.txt",
        },
        BuiltinBook {
            title: "考研词书",
            filename: "5 考研-乱序.txt",
            remote_path: "5%20%E8%80%83%E7%A0%94-%E4%B9%B1%E5%BA%8F.txt",
        },
        BuiltinBook {
            title: "托福词书",
            filename: "6 托福-乱序.txt",
            remote_path: "6%20%E6%89%98%E7%A6%8F-%E4%B9%B1%E5%BA%8F.txt",
        },
        BuiltinBook {
            title: "SAT词书",
            filename: "7 SAT-乱序.txt",
            remote_path: "7%20SAT-%E4%B9%B1%E5%BA%8F.txt",
        },
    ];
    assert(r@.map_values(|b: BuiltinBook| book_view(b)) =~= builtin_catalog());
    r
}

/// The built-in book at `book_index`, or the message for an index past the catalogue.
pub fn builtin_book(book_index: usize) -> (r: Result<BuiltinBook, String>)
    ensures
        r is Ok <==> book_index < builtin_catalog().len(),
        r matches Ok(b) ==> book_view(b) == builtin_catalog()[book_index as int],
        r matches Err(e) ==> e@ == "无效的内置词书索引"@,
{
    let mut books = builtin_books();
    proof {
        assert(books@.len() == builtin_catalog().len());
    }
    if book_index < books.len() {
        let ghost before = books@;
        let b = books.swap_remove(book_index);
        assert(b == before[book_index as int]);
        assert(book_view(b) == before.map_values(|x: BuiltinBook| book_view(x))[book_index as int]);
        Ok(b)
    } else {
        Err(String::from_str("无效的内置词书索引"))
    }
}

/// The catalogue as the book picker lists it: each book with its index.
pub fn get_builtin_book_list() -> (r: Vec<BuiltinBookDef>)
    ensures
        r@.len() == builtin_catalog().len(),
        forall|i: int|
            0 <= i < r@.len() ==> {
                &&& (#[trigger] r@[i]).index == i
                &&& r@[i].title@ == builtin_catalog()[i].0
                &&& r@[i].filename@ == builtin_catalog()[i].1
            },
{
    let books = builtin_books();
    let mut defs: Vec<BuiltinBookDef> = Vec::new();
    let mut i: usize = 0;
    while i < books.len()
        invariant
            0 <= i <= books.len(),
            books@.map_values(|b: BuiltinBook| book_view(b)) == builtin_catalog(),
            defs@.len() == i,
            forall|j: int|
                0 <= j < i ==> {
                    &&& (#[trigger] defs@[j]).index == j
                    &&& defs@[j].title@ == builtin_catalog()[j].0
                    &&& defs@[j].filename@ == builtin_catalog()[j].1
                },
        decreases books.len() - i,
    {
        let b = &books[i];
        assert(book_view(*b) == builtin_catalog()[i as int]);
        defs.push(
            BuiltinBookDef {
                index: i,
                title: String::from_str(b.title),
                filename: String::from_str(b.filename),
            },
        );
        i = i + 1;
    }
    defs
}

/// The `source_ref` under which a built-in book is stored: `builtin:` and its file name.
pub fn builtin_source_ref(book: &BuiltinBook) -> (r: String)
    ensures
        r@ == "builtin:"@ + book.filename@,
{
    let mut r = String::from_str("builtin:");
    r.append(book.filename);
    r
}

/// `s` without the `c` characters at its end (`str::trim_end_matches`).
pub open spec fn strip_end(s: Seq<char>, c: char) -> Seq<char>
    decreases s.len(),
{
    if s.len() > 0 && s.last() == c {
        strip_end(s.drop_last(), c)
    } else {
        s
    }
}

/// `s` without the `c` characters at its start (`str::trim_start_matches`).
pub open spec fn strip_start(s: Seq<char>, c: char) -> Seq<char>
    decreases s.len(),
{
    if s.len() > 0 && s[0] == c {
        strip_start(s.drop_first(), c)
    } else {
        s
    }
}

/// The download base: the first of the two settings that is given, else the public mirror.
pub open spec fn vocab_base(primary: Option<String>, secondary: Option<String>) -> Seq<char> {
    match primary {
        Some(b) => b@,
        None => match secondary {
            Some(b) => b@,
            None => "https://raw.githubusercontent.com/KyleBing/english-vocabulary/master"@,
        },
    }
}

/// The download address of `book`: the base without trailing slashes, a slash,
/// and the book's path without leading slashes.
pub open spec fn book_url(book: BuiltinBook, primary: Option<String>, secondary: Option<String>) -> Seq<
    char,
> {
    strip_end(vocab_base(primary, secondary), '/') + "/"@ + strip_start(book.remote_path@, '/')
}

proof fn lemma_strip_end_at(s: Seq<char>, c: char, k: int)
    requires
        0 <= k <= s.len(),
        forall|j: int| k <= j < s.len() ==> #[trigger] s[j] == c,
        k == 0 || s[k - 1] != c,
    ensures
        strip_end(s, c) == s.take(k),
    decreases s.len(),
{
    if s.len() > k {
        let t = s.drop_last();
        assert forall|j: int| k <= j < t.len() implies #[trigger] t[j] == c by {
            assert(t[j] == s[j]);
        }
        if k > 0 {
            assert(t[k - 1] == s[k - 1]);
        }
        lemma_strip_end_at(t, c, k);
        assert(t.take(k) =~= s.take(k));
    } else {
        assert(s.take(k) =~= s);
    }
}

proof fn lemma_strip_start_at(s: Seq<char>, c: char, k: int)
    requires
        0 <= k <= s.len(),
        forall|j: int| 0 <= j < k ==> #[trigger] s[j] == c,
        k == s.len() || s[k] != c,
    ensures
        strip_start(s, c) == s.skip(k),
    decreases k,
{
    if k > 0 {
        let t = s.drop_first();
        assert forall|j: int| 0 <= j < k - 1 implies #[trigger] t[j] == c by {
            assert(t[j] == s[j + 1]);
        }
        if k < s.len() {
            assert(t[k - 1] == s[k]);
        }
        lemma_strip_start_at(t, c, k - 1);
        assert(t.skip(k - 1) =~= s.skip(k));
    } else {
        assert(s.skip(0) =~= s);
    }
}

/// The download address of a built-in book. `primary` and `secondary` are the
/// configured download bases, if any, in order of preference.
pub fn builtin_book_url(book: &BuiltinBook, primary: Option<String>, secondary: Option<String>) -> (r:
    String)
    ensures
        r@ == book_url(*book, primary, secondary),
{
    let ghost base_view = vocab_base(primary, secondary);
    let base = match primary {
        Some(b) => b,
        None => match secondary {
            Some(b) => b,
            None => String::from_str(
                "https://raw.githubusercontent.com/KyleBing/english-vocabulary/master",
            ),
        },
    };
    let bs = chars_of(base.as_str());
    let mut e = bs.len();
    while e > 0 && bs[e - 1] == '/'
        invariant
            e <= bs.len(),
            forall|j: int| e <= j < bs.len() ==> #[trigger] bs@[j] == '/',
        decreases e,
    {
        e = e - 1;
    }
    proof {
        lemma_strip_end_at(bs@, '/', e as int);
    }
    let ps = chars_of(book.remote_path);
    let mut s: usize = 0;
    while s < ps.len() && ps[s] == '/'
        invariant
            s <= ps.len(),
            forall|j: int| 0 <= j < s ==> #[trigger] ps@[j] == '/',
        decreases ps.len() - s,
    {
        s = s + 1;
    }
    proof {
        lemma_strip_start_at(ps@, '/', s as int);
        assert(ps@.skip(s as int) =~= ps@.subrange(s as int, ps@.len() as int));
        assert(bs@.take(e as int) =~= bs@.subrange(0, e as int));
    }
    let mut r = string_of(&bs, 0, e);
    r.append("/");
    r.append(string_of(&ps, s, ps.len()).as_str());
    r
}

proof fn lemma_strip_end_shape(s: Seq<char>, c: char) -> (k: int)
    ensures
        0 <= k <= s.len(),
        strip_end(s, c) == s.take(k),
        forall|j: int| k <= j < s.len() ==> #[trigger] s[j] == c,
        k == 0 || s[k - 1] != c,
    decreases s.len(),
{
    if s.len() > 0 && s.last() == c {
        let t = s.drop_last();
        let k = lemma_strip_end_shape(t, c);
        assert(t.take(k) =~= s.take(k));
        assert forall|j: int| k <= j < s.len() implies #[trigger] s[j] == c by {
            if j < t.len() {
                assert(s[j] == t[j]);
            }
        }
        if k > 0 {
            assert(s[k - 1] == t[k - 1]);
        }
        k
    } else {
        assert(s.take(s.len() as int) =~= s);
        s.len() as int
    }
}

proof fn lemma_strip_start_shape(s: Seq<char>, c: char) -> (k: int)
    ensures
        0 <= k <= s.len(),
        strip_start(s, c) == s.skip(k),
        forall|j: int| 0 <= j < k ==> #[trigger] s[j] == c,
        k == s.len() || s[k] != c,
    decreases s.len(),
{
    if s.len() > 0 && s[0] == c {
        let t = s.drop_first();
        let k = lemma_strip_start_shape(t, c);
        assert(t.skip(k) =~= s.skip(k + 1));
        assert forall|j: int| 0 <= j < k + 1 implies #[trigger] s[j] == c by {
            if j > 0 {
                assert(s[j] == t[j - 1]);
            }
        }
        if k + 1 < s.len() {
            assert(s[k + 1] == t[k]);
        }
        k + 1
    } else {
        assert(s.skip(0) =~= s);
        0
    }
}

/// The download address is the base with its trailing slashes removed, one
/// slash, and the book's path with its leading slashes removed; only slashes
/// are removed. The base is the first configured one, else the public mirror.
pub proof fn book_url_law(book: BuiltinBook, primary: Option<String>, secondary: Option<String>)
    ensures
        exists|a: int, b: int|
            #![trigger vocab_base(primary, secondary).take(a), book.remote_path@.skip(b)]
            0 <= a <= vocab_base(primary, secondary).len() && 0 <= b <= book.remote_path@.len()
                && book_url(book, primary, secondary) == vocab_base(primary, secondary).take(a)
                + "/"@ + book.remote_path@.skip(b) && (forall|j: int|
                a <= j < vocab_base(primary, secondary).len() ==> #[trigger] vocab_base(
                    primary,
                    secondary,
                )[j] == '/') && (a == 0 || vocab_base(primary, secondary)[a - 1] != '/') && (
            forall|j: int| 0 <= j < b ==> #[trigger] book.remote_path@[j] == '/') && (b
                == book.remote_path@.len() || book.remote_path@[b] != '/'),
        primary matches Some(p) ==> vocab_base(primary, secondary) == p@,
        primary is None ==> (secondary matches Some(q) ==> vocab_base(primary, secondary) == q@),
{
    let a = lemma_strip_end_shape(vocab_base(primary, secondary), '/');
    let b = lemma_strip_start_shape(book.remote_path@, '/');
    assert(book_url(book, primary, secondary) == vocab_base(primary, secondary).take(a) + "/"@
        + book.remote_path@.skip(b));
}

} // verus!
