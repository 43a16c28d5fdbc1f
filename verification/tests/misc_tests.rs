use my_redis::component::{Circle, Component, Square};
use my_redis::summary::{NewsArticle, Summary, Tweet};
use my_redis::{largest, largest_i32, largest_reference, quox, Breakfast};

#[test]
fn lib_it_works() {
    let result = 2 + 2;
    assert_eq!(result, 4);
}

#[test]
fn breakfast_summer() {
    let mut meal = Breakfast::summer("Rye");
    assert_eq!(meal.toast, "Rye");
    meal.toast = String::from("Wheat");
    assert_eq!(meal.toast, "Wheat");
}

#[test]
fn article_summary() {
    let article = NewsArticle {
        headline: String::from("headline"),
        location: String::from("location"),
        author: String::from("author"),
        content: String::from("content"),
    };
    assert_eq!(article.summarize(), "headline, by author (location)");
}

#[test]
fn tweet_summary() {
    let tweet = Tweet {
        username: String::from("username"),
        content: String::from("content"),
        reply: false,
        retweet: false,
    };
    assert_eq!(tweet.summarize(), "username: content");
}

#[test]
fn shapes_draw_and_modify() {
    let mut sq = Square::new(2);
    assert_eq!(sq.draw(), "Draw a square with edge 2");
    sq.modify(4);
    assert_eq!(sq.draw(), "Draw a square with edge 4");
    let mut ci = Circle::new(2);
    assert_eq!(ci.draw(), "Draw a circle with radius 2");
    ci.modify(-3);
    assert_eq!(ci.draw(), "Draw a circle with radius -3");
}

#[test]
fn largest_of_each() {
    let arr_char = vec!['b', 'c', 'B', 'C'];
    let arr_i32 = vec![10, 20, 0, 310];
    assert_eq!(largest(&arr_char), 'c');
    assert_eq!(*largest_reference(&arr_char), 'c');
    assert_eq!(largest_i32(&arr_i32), 310);
}

#[test]
fn quox_calls_closure() {
    let called = std::cell::Cell::new(false);
    quox(|| called.set(true));
    assert!(called.get());
}
