use vstd::prelude::*;

verus! {

/// The author of a commit: a name and a mail address.
#[derive(Debug)]
pub struct User {
    name: String,
    mail: String,
}

impl Clone for User {
    fn clone(&self) -> (r: Self)
        ensures
            r.name_view() == self.name_view(),
            r.mail_view() == self.mail_view(),
    {
        User { name: self.name.clone(), mail: self.mail.clone() }
    }
}

impl User {
    /// The name the user goes by.
    pub closed spec fn name_view(&self) -> Seq<char> {
        self.name@
    }

    /// The user's mail address.
    pub closed spec fn mail_view(&self) -> Seq<char> {
        self.mail@
    }

    /// A user with this name and mail address.
    pub fn new(name: &str, mail: &str) -> (r: User)
        ensures
            r.name_view() == name@,
            r.mail_view() == mail@,
    {
        User { name: String::from_str(name), mail: String::from_str(mail) }
    }

    /// The user's name.
    pub fn get_name(&self) -> (r: String)
        ensures
            r@ == self.name_view(),
    {
        self.name.clone()
    }

    /// The user's mail address.
    pub fn get_mail(&self) -> (r: String)
        ensures
            r@ == self.mail_view(),
    {
        self.mail.clone()
    }

    /// Whether two users have the same name and mail address.
    pub fn same_as(&self, other: &User) -> (r: bool)
        ensures
            r == (self.name_view() == other.name_view() && self.mail_view() == other.mail_view()),
    {
        self.name == other.name && self.mail == other.mail
    }
}

} // verus!
