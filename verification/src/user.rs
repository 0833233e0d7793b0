//! Users of the bot and the page of the dialogue each one is on.

use vstd::prelude::*;
use crate::text::same_text;

verus! {

/// The page of the dialogue a user is on.
#[derive(Debug, PartialEq, Eq, Structural, Clone, Copy)]
pub enum Page {
    ChooseRoute,
    ChooseTrain,
    Waiting,
}

/// The name under which a page is stored.
pub open spec fn page_name(p: Page) -> Seq<char> {
    match p {
        Page::ChooseRoute => "ChooseRoute"@,
        Page::ChooseTrain => "ChooseTrain"@,
        Page::Waiting => "Waiting"@,
    }
}

/// The page one step back from `p`; the first page stays where it is.
pub open spec fn page_back(p: Page) -> Page {
    match p {
        Page::ChooseRoute => Page::ChooseRoute,
        Page::ChooseTrain => Page::ChooseRoute,
        Page::Waiting => Page::ChooseTrain,
    }
}

impl Page {
    /// The stored name of the page.
    pub fn as_str(&self) -> (r: &'static str)
        ensures
            r@ == page_name(*self),
    {
        match self {
            Page::ChooseRoute => "ChooseRoute",
            Page::ChooseTrain => "ChooseTrain",
            Page::Waiting => "Waiting",
        }
    }

    /// The page one step back.
    pub fn back(&self) -> (r: Page)
        ensures
            r == page_back(*self),
    {
        match self {
            Page::ChooseRoute => Page::ChooseRoute,
            Page::ChooseTrain => Page::ChooseRoute,
            Page::Waiting => Page::ChooseTrain,
        }
    }
}


/// The page stored under `name`, if `name` is the name of a page.
pub open spec fn page_named(name: Seq<char>) -> Option<Page> {
    if name == "ChooseRoute"@ {
        Some(Page::ChooseRoute)
    } else if name == "ChooseTrain"@ {
        Some(Page::ChooseTrain)
    } else if name == "Waiting"@ {
        Some(Page::Waiting)
    } else {
        None
    }
}

/// The message with which an unknown page name is refused.
pub open spec fn invalid_page_message(name: Seq<char>) -> Seq<char> {
    "Invalid value: "@ + name + " for Page"@
}

impl Page {
    /// The page stored under `s`; any other text is refused with a message that names it.
    pub fn parse(s: &str) -> (r: Result<Page, String>)
        ensures
            match page_named(s@) {
                Some(p) => r == Ok::<Page, String>(p),
                None => r matches Err(e) && e@ == invalid_page_message(s@),
            },
    {
        if same_text(s, "ChooseRoute") {
            Ok(Page::ChooseRoute)
        } else if same_text(s, "ChooseTrain") {
            Ok(Page::ChooseTrain)
        } else if same_text(s, "Waiting") {
            Ok(Page::Waiting)
        } else {
            let mut e = String::from_str("Invalid value: ");
            e.append(s);
            e.append(" for Page");
            Err(e)
        }
    }
}

impl std::str::FromStr for Page {
    type Err = String;

    fn from_str(s: &str) -> (r: Result<Page, String>)
        ensures
            match page_named(s@) {
                Some(p) => r == Ok::<Page, String>(p),
                None => r matches Err(e) && e@ == invalid_page_message(s@),
            },
    {
        Page::parse(s)
    }
}

/// A train a user waits for tickets on, and the number of tickets it waits for.
#[derive(Debug)]
pub struct Waiting {
    pub train_number: String,
    pub amount: u64,
}

/// A user of the bot: its chat, its page, the date it looks at, and the
/// train it waits for, if any.
#[derive(Debug)]
pub struct User {
    pub chat_id: i64,
    pub page: Page,
    pub date: String,
    pub waiting: Option<Waiting>,
}

/// The values a stored user row holds, by column.
#[derive(Debug)]
pub struct UserRow {
    pub chat_id: i64,
    pub page: String,
    pub date: String,
    pub train_number: String,
    pub amount: u64,
}

impl User {
    /// A user on `page` that waits for nothing.
    pub fn new(chat_id: i64, page: Page, date: String) -> (r: User)
        ensures
            r.chat_id == chat_id,
            r.page == page,
            r.date@ == date@,
            r.waiting is None,
    {
        User { chat_id, page, date, waiting: None }
    }

    /// The user a stored row describes; the row's page must be a page name.
    pub fn from_sqlite_row(row: &UserRow) -> (r: User)
        requires
            page_named(row.page@) is Some,
        ensures
            r.chat_id == row.chat_id,
            Some(r.page) == page_named(row.page@),
            r.date@ == row.date@,
            r.waiting matches Some(w) && w.train_number@ == row.train_number@ && w.amount
                == row.amount,
    {
        let page = match Page::parse(row.page.as_str()) {
            Ok(p) => p,
            Err(_) => Page::ChooseRoute,
        };
        User {
            chat_id: row.chat_id,
            page,
            date: row.date.clone(),
            waiting: Some(
                Waiting { train_number: row.train_number.clone(), amount: row.amount },
            ),
        }
    }
}


/// Whether a write to the user table took effect: it touched exactly one row.
pub fn write_succeeded(rows_affected: u64) -> (r: bool)
    ensures
        r == (rows_affected == 1),
{
    rows_affected == 1
}

/// A page's stored name reads back as that page, and a name that reads as a
/// page is that page's stored name.
pub proof fn lemma_page_name_round_trip(p: Page, name: Seq<char>)
    ensures
        page_named(page_name(p)) == Some(p),
        page_named(name) == Some(p) ==> name == page_name(p),
{
    reveal_strlit("ChooseRoute");
    reveal_strlit("ChooseTrain");
    reveal_strlit("Waiting");
    assert("ChooseRoute"@[6] != "ChooseTrain"@[6]);
    assert("ChooseRoute"@.len() != "Waiting"@.len());
    assert("ChooseTrain"@.len() != "Waiting"@.len());
}

/// Going back twice from any page reaches the first page, and going back
/// from the first page stays there.
pub proof fn lemma_back_reaches_first_page(p: Page)
    ensures
        page_back(page_back(p)) == Page::ChooseRoute,
        page_back(Page::ChooseRoute) == Page::ChooseRoute,
{
}

} // verus!
