struct Frame {
    view_proj: mat4x4<f32>,
    inv_view_proj: mat4x4<f32>,
    sun_direction: vec4<f32>,
    sun_color: vec4<f32>,
    sky_top: vec4<f32>,
    sky_horizon: vec4<f32>,
    fog_color: vec4<f32>,
    params: vec4<f32>,
    viewport: vec4<f32>,
    time: vec4<f32>,
    world_origin: vec4<f32>,
    camera_position: vec4<f32>,
    shadow_view_proj: mat4x4<f32>,
    probe_origin: vec4<f32>,
    probe_params: vec4<f32>,
};
@group(0) @binding(0)
var<uniform> frame: Frame;
@group(1) @binding(0)
var scene_texture: texture_2d<f32>;
@group(1) @binding(1)
var scene_sampler: sampler;
struct GodrayOutput {
    @builtin(position) clip_position: vec4<f32>,
    @location(0) uv: vec2<f32>,
    @location(1) ray: vec3<f32>,
};
@vertex
fn vs_main(@builtin(vertex_index) index: u32) -> GodrayOutput {
    var positions = array<vec2<f32>, 3>(
        vec2<f32>(-1.0, -1.0),
        vec2<f32>( 3.0, -1.0),
        vec2<f32>(-1.0,  3.0),
    );
    let position = positions[index];
    var output: GodrayOutput;
    output.clip_position = vec4<f32>(position, 0.0, 1.0);
    output.uv = vec2<f32>(
        position.x * 0.5 + 0.5,
        0.5 - position.y * 0.5,
    );
    let far_point = frame.inv_view_proj * vec4<f32>(position, 1.0, 1.0);
    output.ray = normalize(far_point.xyz / max(far_point.w, 0.0001) - frame.camera_position.xyz);
    return output;
}
@fragment
fn fs_main(input: GodrayOutput) -> @location(0) vec4<f32> {
    let underwater = frame.time.y > 0.5;
    let sun_energy = max(frame.sun_color.a, 0.0);
    if (sun_energy < 0.02 || frame.params.x < 0.02) {
        return vec4<f32>(0.0);
    }
    let ray = normalize(input.ray);
    let sun_dir = normalize(frame.sun_direction.xyz);
    let to_sun = max(dot(ray, sun_dir), 0.0);
    if (!underwater && to_sun < 0.015) {
        return vec4<f32>(0.0);
    }
    let sun_point = frame.camera_position.xyz + sun_dir * 256.0;
    let sun_clip = frame.view_proj * vec4<f32>(sun_point, 1.0);
    if (!underwater && sun_clip.w <= 0.001) {
        return vec4<f32>(0.0);
    }
    var sun_uv = vec2<f32>(0.5, -0.45);
    if (sun_clip.w > 0.001) {
        let sun_ndc = sun_clip.xy / sun_clip.w;
        sun_uv = vec2<f32>(sun_ndc.x * 0.5 + 0.5, 0.5 - sun_ndc.y * 0.5);
    }
    let delta = sun_uv - input.uv;
    var rays = vec3<f32>(0.0);
    var total_weight = 0.0;
    let steps = 12u;
    for (var i: u32 = 0u; i < steps; i = i + 1u) {
        let t = (f32(i) + 0.5) / f32(steps);
        let sample_uv = clamp(input.uv + delta * t, vec2<f32>(0.001), vec2<f32>(0.999));
        let falloff = exp(-t * select(3.2, 2.1, underwater));
        if (underwater) {
            let dist_to_sun = length(sample_uv - sun_uv);
            let broad = exp(-dist_to_sun * 4.5);
            let stripe_a = 0.5 + 0.5 * sin(sample_uv.x * 23.0
                + sample_uv.y * 11.0 + frame.time.x * 0.42);
            let stripe_b = 0.5 + 0.5 * sin(sample_uv.y * 17.0
                - sample_uv.x * 7.0 - frame.time.x * 0.31);
            let source = 0.12 + 0.70 * stripe_a * stripe_b + broad * 0.55;
            rays = rays + vec3<f32>(0.34, 0.82, 0.92) * source * falloff;
        } else {
            let sample_color = textureSampleLevel(scene_texture, scene_sampler, sample_uv, 0.0).rgb;
            let luminance = dot(sample_color, vec3<f32>(0.2126, 0.7152, 0.0722));
            let source = smoothstep(0.38, 0.92, luminance);
            rays = rays + sample_color * source * falloff;
        }
        total_weight = total_weight + falloff;
    }
    rays = rays / max(total_weight, 0.001);
    let facing = select(pow(to_sun, 2.2), 0.28 + 0.72 * to_sun, underwater);
    if (underwater) {
        rays = rays * vec3<f32>(0.30, 0.78, 0.88) * (0.70 * sun_energy * facing);
    } else {
        rays = rays * frame.sun_color.rgb * (0.30 * sun_energy * facing);
    }
    return vec4<f32>(max(rays, vec3<f32>(0.0)), 1.0);
}
