use marmotte::document::{GopherMenuLine, GopherMenuResponse, GopherResponse};

fn entry(item_type: char, description: &str, selector: &str, host: &str, port: &str) -> GopherMenuLine {
    GopherMenuLine {
        item_type,
        description: description.to_string(),
        selector: selector.to_string(),
        host: host.to_string(),
        port: port.to_string(),
    }
}

const SAMPLE_MENU: &str = "\
isome test\t\terror.host\t1\r\n\
i \t\terror.host\t1\r\n\
1About\t/about\tkhzae.net\t70\r\n\
i \t\terror.host\t1\r\n\
1Super Dimension Fortress (SDF)\t/\tsdf.org\t70\r\n\
0RFC 4266 (gopher URI scheme)\t/rfc4266.txt\tkhzae.net\t70\r\n\
.";

#[test]
fn should_import_any_menu_line() {
    // Menu line
    assert_eq!(
        Ok(entry('1', "Floodgap Home", "/home", "gopher.floodgap.com", "70")),
        GopherMenuLine::from("1Floodgap Home\t/home\tgopher.floodgap.com\t70")
    );
    // Information line with graphics
    assert_eq!(
        Ok(entry('i', "              ,-.      .-,", "", "error.host", "1")),
        GopherMenuLine::from("i              ,-.      .-,\t\terror.host\t1")
    );
    // Information line with text
    assert_eq!(
        Ok(entry('i', "Find movie showtimes by postal code/zip.", "", "error.host", "1")),
        GopherMenuLine::from("iFind movie showtimes by postal code/zip.\t\terror.host\t1")
    );
    // Text resource line
    assert_eq!(
        Ok(entry('0', "RFC 1436 (gopher protocol)", "/rfc1436.txt", "khzae.net", "70")),
        GopherMenuLine::from("0RFC 1436 (gopher protocol)\t/rfc1436.txt\tkhzae.net\t70")
    );
    // Search resource line
    assert_eq!(
        Ok(entry('7', "Search dictionary", "/dict/search", "khzae.net", "70")),
        GopherMenuLine::from("7Search dictionary\t/dict/search\tkhzae.net\t70")
    );
    // Gopher+ Text resource line
    assert_eq!(
        Ok(entry('0', "Some file or other", "moo selector", "host2", "70")),
        GopherMenuLine::from("0Some file or other\tmoo selector\thost2\t70\t+")
    );
}

#[test]
fn main_should_return_formatted_attributes() {
    // get_url()
    assert_eq!(
        "gopher://khzae.net:70/0/rfc1436.txt".to_string(),
        GopherMenuLine::from("0RFC 1436 (gopher protocol)\t/rfc1436.txt\tkhzae.net\t70")
            .unwrap()
            .get_url()
    );
}

#[test]
fn should_manage_parsing_errors() {
    assert_eq!(
        Err("Could not parse item type in: \"\t\t''.                  ....                            \t70\"".to_string()),
        GopherMenuLine::from("\t\t''.                  ....                            \t70")
    );

    assert_eq!(
        Err("Could not parse selector in: \"idescription   \"".to_string()),
        GopherMenuLine::from("idescription   ")
    );

    assert_eq!(
        Err("Could not parse host in: \"idescription\tselector\"".to_string()),
        GopherMenuLine::from("idescription\tselector")
    );

    assert_eq!(
        Err("Could not parse port in: \"ior taken the time to contribute in other way. false\tnull.host\t1\"".to_string()),
        GopherMenuLine::from("ior taken the time to contribute in other way. false\tnull.host\t1")
    );
}

#[test]
fn should_return_right_link() {
    let parsed_response = GopherResponse::Menu(GopherMenuResponse::from(SAMPLE_MENU));
    assert_eq!(
        Ok("gopher://khzae.net:70/1/about".to_string()),
        parsed_response.get_link_url("1")
    );
    assert_eq!(
        Ok("gopher://sdf.org:70/1/".to_string()),
        parsed_response.get_link_url("2")
    );
    assert_eq!(
        Ok("gopher://khzae.net:70/0/rfc4266.txt".to_string()),
        parsed_response.get_link_url("3")
    );
}

#[test]
fn should_return_none_when_link_out_of_bounds() {
    let parsed_response = GopherResponse::Menu(GopherMenuResponse::from(SAMPLE_MENU));
    assert_eq!(
        Err("Link index can't be negative".to_string()),
        parsed_response.get_link_url("-10")
    );
    assert_eq!(
        Err("Given index is out of bounds".to_string()),
        parsed_response.get_link_url("0")
    );
    assert_eq!(
        Err("Given index is out of bounds".to_string()),
        parsed_response.get_link_url("4")
    );
    assert_eq!(
        Err("Given index is out of bounds".to_string()),
        parsed_response.get_link_url("20")
    );
}
