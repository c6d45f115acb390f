//! A minimal local user-credential store and login checker: user records
//! with lowercase usernames, unsalted SHA-224 password digests and a role,
//! kept under mapping semantics, decided against on login, and serialized
//! to a line-oriented text whose round-trip is proved exact.

pub mod codec;
pub mod store;
pub mod user;

pub use codec::get_users;
pub use codec::save_users;
pub use store::StoreError;
pub use store::UserStore;
pub use store::add_users;
pub use store::change_password;
pub use store::delete_user;
pub use store::get_default_users;
pub use store::get_users_vec;
pub use store::login;
pub use user::LoginAction;
pub use user::LoginRole;
pub use user::User;
pub use user::UserData;
pub use user::greet_user;
pub use user::hash_password;

