use moyu_words::builtin::{builtin_book, builtin_book_url, builtin_books, builtin_source_ref, get_builtin_book_list};

#[test]
fn catalogue_lists_seven_books_in_order() {
    let list = get_builtin_book_list();
    assert_eq!(list.len(), 7);
    assert_eq!(list[0].index, 0);
    assert_eq!(list[0].title, "初中词书");
    assert_eq!(list[0].filename, "1 初中-乱序.txt");
    assert_eq!(list[6].index, 6);
    assert_eq!(list[6].title, "SAT词书");
    assert_eq!(list[6].filename, "7 SAT-乱序.txt");
    let titles: Vec<&str> = builtin_books().iter().map(|b| b.title).collect();
    assert_eq!(titles, vec!["初中词书", "高中词书", "四级词书", "六级词书", "考研词书", "托福词书", "SAT词书"]);
}

#[test]
fn book_index_past_catalogue_is_refused() {
    assert_eq!(builtin_book(3).unwrap().title, "六级词书");
    assert_eq!(builtin_book(7).err().unwrap(), "无效的内置词书索引");
}

#[test]
fn source_ref_names_the_file() {
    let b = builtin_book(1).unwrap();
    assert_eq!(builtin_source_ref(&b), "builtin:2 高中-乱序.txt");
}

#[test]
fn url_uses_first_configured_base() {
    let b = builtin_book(6).unwrap();
    assert_eq!(
        builtin_book_url(&b, None, None),
        "https://raw.githubusercontent.com/KyleBing/english-vocabulary/master/7%20SAT-%E4%B9%B1%E5%BA%8F.txt"
    );
    assert_eq!(
        builtin_book_url(&b, Some("http://mirror.local//".to_string()), Some("http://other".to_string())),
        "http://mirror.local/7%20SAT-%E4%B9%B1%E5%BA%8F.txt"
    );
    assert_eq!(
        builtin_book_url(&b, None, Some("http://other/".to_string())),
        "http://other/7%20SAT-%E4%B9%B1%E5%BA%8F.txt"
    );
    assert_eq!(builtin_book_url(&b, Some("///".to_string()), None), "/7%20SAT-%E4%B9%B1%E5%BA%8F.txt");
}
