use blog_api::auth::{claims_valid, login, TOKEN_LIFETIME_SECS};
use blog_api::entities::User;
use blog_api::error::CustomError;
use blog_api::response::CustomResponse;
use blog_api::util::path_is_valid;

fn user(id: u128, username: &str, password: &str) -> User {
    User {
        id,
        username: username.to_string(),
        password: password.to_string(),
        email: "a@b.c".to_string(),
        avatar: None,
    }
}

#[test]
fn login_with_wrong_password_fails() {
    let users = vec![user(1, "bob", "right")];
    let r = login(&users, &"bob".to_string(), &"wrong".to_string(), 1000);
    assert!(matches!(r, Err(CustomError::Other(_))));
}

#[test]
fn login_with_unknown_user_fails() {
    let users = vec![user(1, "bob", "pw")];
    let r = login(&users, &"alice".to_string(), &"pw".to_string(), 1000);
    match r {
        Err(e) => {
            assert!(e.code() == -1);
            assert!(e.message() == "user not found");
        },
        Ok(_) => panic!("no claims may be issued"),
    }
}

#[test]
fn login_issues_claims_for_matching_user() {
    let users = vec![user(7, "bob", "pw"), user(8, "bob", "pw")];
    let now: i64 = 1000;
    let c = login(&users, &"bob".to_string(), &"pw".to_string(), now).unwrap();
    // the first matching user wins
    assert!(c.user_id == 7);
    assert!(c.name == "bob");
    assert!(c.exp == now + TOKEN_LIFETIME_SECS);
    assert!(claims_valid(&c, now));
    assert!(!claims_valid(&c, c.exp));
}

#[test]
fn traversal_path_is_rejected() {
    assert!(!path_is_valid("../../etc/passwd"));
}

#[test]
fn path_validity_cases() {
    assert!(path_is_valid("photo.png"));
    assert!(path_is_valid(".hidden"));
    assert!(path_is_valid("..."));
    assert!(path_is_valid("a/"));
    assert!(path_is_valid("a/."));
    assert!(!path_is_valid(""));
    assert!(!path_is_valid("."));
    assert!(!path_is_valid(".."));
    assert!(!path_is_valid("/etc"));
    assert!(!path_is_valid("a/b"));
    assert!(!path_is_valid("a/.."));
    assert!(!path_is_valid("./a"));
}

#[test]
fn error_codes_follow_the_taxonomy() {
    assert!(CustomError::Jwt("x".to_string()).code() == 9527);
    assert!(CustomError::Database("down".to_string()).code() == 9528);
    assert!(CustomError::Validation("v".to_string()).code() == -1);
    assert!(CustomError::Io("io".to_string()).code() == -1);
    assert!(CustomError::Jwt("x".to_string()).message() == "Unauthorized");
    assert!(CustomError::Database("down".to_string()).message() == "down");
}

#[test]
fn response_envelope_shapes() {
    let ok: CustomResponse<u32> = CustomResponse::ok(5);
    assert!(ok.code == 0);
    assert!(ok.message == "OK");
    assert!(ok.data == Some(5));

    let failed: CustomResponse<u32> = CustomResponse::failed(-1, "boom");
    assert!(failed.code == -1);
    assert!(failed.message == "boom");
    assert!(failed.data.is_none());

    let e = CustomError::Jwt("bad".to_string());
    let resp: CustomResponse<u32> = CustomResponse::error_with_code(e.code(), &e);
    assert!(resp.code == 9527);
    assert!(resp.message == "Unauthorized");
    assert!(resp.data.is_none());
}
