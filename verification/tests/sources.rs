use ascii_engine::backends::{backend_label, list_compute_backends, list_render_backends, ComputeProbes, GpuAdapter, GraphicsApi};
use ascii_engine::codec::{best_settings_for, bytes_to_base64, decode_file_luma, decode_file_resized_luma, decode_frame_bytes, decode_frame_luma, decode_frame_resized_luma, encode_rgba_as_base64_png, export_bytes, payload_after_comma, RgbaFrame};
use ascii_engine::sources::{camera_device_info, decimal_text, parse_screen_source, parse_u32, screen_source_id, screen_source_info, ScreenSource};

#[test]
fn decimal_text_of_numbers() {
    assert_eq!(decimal_text(0), "0");
    assert_eq!(decimal_text(7), "7");
    assert_eq!(decimal_text(10), "10");
    assert_eq!(decimal_text(4294967295), "4294967295");
}

#[test]
fn parse_u32_follows_std() {
    for text in ["0", "42", "+42", "007", "4294967295", "4294967296", "", "+", "-1", "1a", " 1", "99999999999"] {
        assert_eq!(parse_u32(text), text.parse::<u32>().ok(), "{text}");
    }
}

#[test]
fn screen_source_ids_round_trip() {
    for source in [ScreenSource::Monitor(0), ScreenSource::Monitor(65537), ScreenSource::Window(12)] {
        let id = screen_source_id(source);
        assert!(parse_screen_source(&id) == Ok(source));
    }
    assert_eq!(screen_source_id(ScreenSource::Window(31)), "window:31");
}

#[test]
fn bad_screen_source_ids_are_refused() {
    assert!(parse_screen_source("monitor:x") == Err("Некорректный id монитора".to_string()));
    assert!(parse_screen_source("window:") == Err("Некорректный id окна".to_string()));
    assert!(parse_screen_source("camera:1") == Err("Неизвестный источник экрана".to_string()));
    assert!(parse_screen_source("monitor:+5") == Ok(ScreenSource::Monitor(5)));
}

#[test]
fn screen_source_info_names_kind() {
    let info = screen_source_info(ScreenSource::Monitor(3), "Main".to_string(), 1920, 1080);
    assert_eq!(info.id, "monitor:3");
    assert_eq!(info.kind, "monitor");
    assert_eq!((info.width, info.height), (1920, 1080));
    let info = screen_source_info(ScreenSource::Window(9), "Editor".to_string(), 800, 600);
    assert_eq!(info.kind, "window");
    assert_eq!(info.label, "Editor");
}

#[test]
fn obs_virtual_camera_is_recognised() {
    let obs = camera_device_info(1, "OBS Virtual Camera".to_string(), "virtual".to_string());
    assert!(obs.is_probably_obs_virtual_camera);
    assert_eq!(obs.index, 1);
    let webcam = camera_device_info(0, "Integrated Webcam".to_string(), "usb".to_string());
    assert!(!webcam.is_probably_obs_virtual_camera);
    let short = camera_device_info(2, "ob".to_string(), String::new());
    assert!(!short.is_probably_obs_virtual_camera);
}

#[test]
fn compute_backends_default_to_cpu_without_gpu() {
    let list = list_compute_backends(ComputeProbes { cuda: None, webgpu: None, opencl: None, directcompute: false });
    let ids: Vec<&str> = list.iter().map(|b| b.id.as_str()).collect();
    assert_eq!(ids, vec!["cpu", "cuda", "webgpu", "opencl", "directcompute"]);
    assert!(list[0].is_default && list[0].is_available);
    assert_eq!(list.iter().filter(|b| b.is_default).count(), 1);
    assert_eq!(list[1].label, "NVIDIA CUDA (не собрано в этой сборке)");
}

#[test]
fn compute_backends_prefer_first_available_gpu() {
    let list = list_compute_backends(ComputeProbes { cuda: Some(false), webgpu: Some(true), opencl: Some(true), directcompute: true });
    let defaults: Vec<&str> = list.iter().filter(|b| b.is_default).map(|b| b.id.as_str()).collect();
    assert_eq!(defaults, vec!["webgpu"]);
    assert!(!list[3].executes_on_gpu);
    assert!(list[4].is_available);
    let list = list_compute_backends(ComputeProbes { cuda: Some(true), webgpu: Some(true), opencl: None, directcompute: false });
    assert!(list[1].is_default && !list[2].is_default && !list[0].is_default);
}

#[test]
fn render_backends_list_gpus_after_cpu() {
    let adapters = vec![
        GpuAdapter { name: "llvmpipe".to_string(), device: 0, api: GraphicsApi::Vulkan, is_cpu: true },
        GpuAdapter { name: "RTX".to_string(), device: 7938, api: GraphicsApi::Vulkan, is_cpu: false },
        GpuAdapter { name: "Odd".to_string(), device: 1, api: GraphicsApi::Other, is_cpu: false },
        GpuAdapter { name: "RTX".to_string(), device: 7938, api: GraphicsApi::Gl, is_cpu: false },
    ];
    let list = list_render_backends(&adapters);
    let ids: Vec<&str> = list.iter().map(|b| b.id.as_str()).collect();
    assert_eq!(ids, vec!["cpu", "vulkan:7938", "gl:7938"]);
    assert_eq!(list[1].label, "RTX (Vulkan)");
    assert_eq!(list[2].label, "RTX (OpenGL)");
    assert_eq!(list[1].kind, "gpu");
    assert!(!list[0].is_default && list[1].is_default && !list[2].is_default);
}

#[test]
fn render_backends_default_to_cpu_alone() {
    let list = list_render_backends(&Vec::new());
    assert_eq!(list.len(), 1);
    assert!(list[0].is_default);
    assert_eq!(list[0].kind, "cpu");
    assert_eq!(backend_label(GraphicsApi::Dx12), "DirectX 12");
    assert_eq!(backend_label(GraphicsApi::Other), "Неизвестный backend");
}

#[test]
fn payload_follows_first_comma() {
    assert_eq!(payload_after_comma(b"data:image/png;base64,QUJD"), Some(b"QUJD".to_vec()));
    assert_eq!(payload_after_comma(b"a,b,c"), Some(b"b,c".to_vec()));
    assert_eq!(payload_after_comma(b"QUJD"), None);
}

#[test]
fn frames_decode_with_or_without_data_url() {
    assert_eq!(decode_frame_bytes("QUJD"), Ok(b"ABC".to_vec()));
    assert_eq!(decode_frame_bytes("data:image/png;base64,QUJD"), Ok(b"ABC".to_vec()));
    assert!(decode_frame_bytes("data:,*not base64*").is_err());
}

#[test]
fn exports_write_text_or_decoded_data() {
    assert_eq!(export_bytes("plain text", false), Ok(b"plain text".to_vec()));
    assert_eq!(export_bytes("data:image/png;base64,QUJD", true), Ok(b"ABC".to_vec()));
    assert_eq!(export_bytes("QUJD", true), Err("Invalid image data".to_string()));
    assert!(export_bytes("data:,%%%", true).is_err());
}

#[test]
fn base64_text_decodes_back() {
    let data: Vec<u8> = (0..=255u8).collect();
    let text = bytes_to_base64(&data);
    assert_eq!(text.len(), 344);
    assert_eq!(decode_frame_bytes(&text), Ok(data));
    assert_eq!(bytes_to_base64(b"ABC"), "QUJD");
}

#[test]
fn captured_frame_round_trips_as_png() {
    let pixels: Vec<u8> = (0..2 * 3 * 4).map(|i| (i * 10) as u8).collect();
    assert!(RgbaFrame::new(2, 3, vec![0; 5]).is_none());
    let frame = RgbaFrame::new(2, 3, pixels.clone()).unwrap();
    let text = encode_rgba_as_base64_png(frame).unwrap();
    let png = decode_frame_bytes(&text).unwrap();
    assert_eq!(&png[..8], b"\x89PNG\r\n\x1a\n");
    let luma = decode_frame_luma(&text).unwrap();
    assert_eq!((luma.width(), luma.height()), (2, 3));
    assert_eq!(luma.pixels().len(), 6);
}

fn gray_png(width: u32, height: u32, value: u8) -> Vec<u8> {
    let pixels: Vec<u8> = (0..width * height).flat_map(|_| [value, value, value, 255]).collect();
    let text = encode_rgba_as_base64_png(RgbaFrame::new(width, height, pixels).unwrap()).unwrap();
    decode_frame_bytes(&text).unwrap()
}

#[test]
fn gray_frame_decodes_to_its_gray_level() {
    let png = gray_png(4, 2, 100);
    let text = format!("data:image/png;base64,{}", bytes_to_base64(&png));
    let luma = decode_frame_luma(&text).unwrap();
    assert_eq!((luma.width(), luma.height()), (4, 2));
    assert!(luma.pixels().iter().all(|&p| p == 100));
    let resized = decode_frame_resized_luma(&text, 2, 1).unwrap();
    assert_eq!((resized.width(), resized.height()), (2, 1));
    assert_eq!(resized.pixels(), &vec![100, 100]);
}

#[test]
fn garbage_frame_is_not_an_image() {
    assert!(decode_frame_luma("QUJD").is_err());
    assert!(decode_frame_luma("*").is_err());
    assert!(decode_frame_resized_luma("QUJD", 2, 2).is_err());
}

#[test]
fn files_decode_in_the_format_of_their_extension() {
    let png = gray_png(3, 5, 7);
    let luma = decode_file_luma(&png, "png").unwrap();
    assert_eq!((luma.width(), luma.height()), (3, 5));
    assert!(luma.pixels().iter().all(|&p| p == 7));
    assert!(decode_file_luma(&png, "PNG").is_ok());
    // a PNG named as a JPEG, or with no known extension, is refused
    assert!(decode_file_luma(&png, "jpg").is_err());
    assert!(decode_file_luma(&png, "").is_err());
    let resized = decode_file_resized_luma(&png, "png", 1, 1).unwrap();
    assert_eq!(resized.pixels(), &vec![7]);
}

#[test]
fn best_settings_follow_header_width() {
    let png = gray_png(800, 1, 0);
    assert_eq!(best_settings_for(&png, "png").unwrap().resolution, 100);
    // the header is recognised from the content whatever the extension
    assert_eq!(best_settings_for(&png, "").unwrap().resolution, 100);
    assert_eq!(best_settings_for(&gray_png(8, 8, 0), "png").unwrap().resolution, 64);
    assert!(best_settings_for(b"not an image", "png").is_err());
}

#[test]
fn only_canonical_base64_decodes() {
    assert_eq!(decode_frame_bytes(""), Ok(vec![]));
    assert_eq!(decode_frame_bytes("QQ=="), Ok(b"A".to_vec()));
    assert_eq!(decode_frame_bytes("QUI="), Ok(b"AB".to_vec()));
    // missing padding, trailing bits and stray characters are refused
    assert!(decode_frame_bytes("QQ").is_err());
    assert!(decode_frame_bytes("QR==").is_err());
    assert!(decode_frame_bytes("QUJD ").is_err());
    assert!(export_bytes("data:,QR==", true).is_err());
}

#[test]
fn empty_frame_is_not_encoded() {
    assert!(encode_rgba_as_base64_png(RgbaFrame::new(0, 3, vec![]).unwrap()).is_err());
    assert!(encode_rgba_as_base64_png(RgbaFrame::new(3, 0, vec![]).unwrap()).is_err());
    assert!(encode_rgba_as_base64_png(RgbaFrame::new(1, 1, vec![1, 2, 3, 4]).unwrap()).is_ok());
}

#[test]
fn png_file_and_frame_decode_alike() {
    let pixels: Vec<u8> = (0..6 * 4 * 4).map(|i| (i * 7 % 256) as u8).collect();
    let text = encode_rgba_as_base64_png(RgbaFrame::new(6, 4, pixels).unwrap()).unwrap();
    let png = decode_frame_bytes(&text).unwrap();
    let from_frame = decode_frame_luma(&text).unwrap();
    let from_url = decode_frame_luma(&format!("data:image/png;base64,{}", text)).unwrap();
    let from_file = decode_file_luma(&png, "png").unwrap();
    assert_eq!(from_frame.pixels(), from_file.pixels());
    assert_eq!(from_url.pixels(), from_file.pixels());
    assert_eq!((from_file.width(), from_file.height()), (6, 4));
    let resized_frame = decode_frame_resized_luma(&text, 3, 2).unwrap();
    let resized_file = decode_file_resized_luma(&png, "Png", 3, 2).unwrap();
    assert_eq!(resized_frame.pixels(), resized_file.pixels());
}

#[test]
fn formats_other_than_png_are_refused() {
    let jpeg_start = b"\xff\xd8\xff\xe0\x00\x10JFIF\x00\x01\x01\x00\x00\x01\x00\x01\x00\x00";
    assert!(decode_file_luma(jpeg_start, "jpg").is_err());
    let gif_start = b"GIF89a\x01\x00\x01\x00\x00\x00\x00;";
    assert!(decode_file_luma(gif_start, "gif").is_err());
}
